//! A streamable, self-describing binary container format ("bottle").
//!
//! A bottle is a fixed 8-byte preamble (magic, version, type, header length),
//! an opaque header blob, and an ordered list of framed sub-streams, each a
//! sequence of length-prefixed chunks closed by an end-of-stream sentinel;
//! the bottle itself is closed by an end-of-all-streams sentinel. Lengths on
//! the wire use a variable-length integer code that favors small values and
//! exact powers of two ("zint").

use vstd::prelude::*;

pub mod bottle;
pub mod framing;
pub mod zint;

pub use bottle::decode_bottle_type;
pub use bottle::make_bottle;
pub use bottle::make_header_stream;
pub use bottle::read_header;
pub use bottle::BottleType;
pub use framing::framed_vec_stream;
pub use zint::decode_packed_int;
pub use zint::encode_length;
pub use zint::encode_packed_int;
pub use zint::log_base2;

verus! {

/// Every failure the container format can report.
#[derive(Clone, Copy, Debug, PartialEq, Eq, Structural)]
pub enum BottleError {
    /// The first four bytes of a bottle were not the magic signature.
    BadMagic,
    /// The version byte or the reserved byte of a preamble was not zero;
    /// the fields carry the two bytes that were found.
    BadVersion(u8, u8),
    /// The type nibble of a preamble named no known bottle type; the field
    /// carries the nibble that was found.
    UnknownBottleType(u8),
    /// An encoded header was longer than the 4095 bytes the preamble's
    /// 12-bit length field can carry.
    HeaderTooLarge,
    /// A value of 2^28 or more was handed to the length encoder.
    LengthOverflow,
    /// The input ended before the bytes a read needed were available.
    TruncatedInput,
    /// The opaque header collaborator could not decode a header body.
    MalformedHeaderBody,
}

} // verus!
