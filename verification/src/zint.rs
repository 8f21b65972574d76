//! Variable-length integer codecs.
//!
//! Two representations live here: a packed little-endian integer whose byte
//! count the caller carries out of band, and a self-describing "length" code
//! biased toward small values and exact powers of two, with two reserved
//! sentinel bytes: `0x00` ends one stream, `0xff` ends all streams.

use crate::BottleError;
use vstd::prelude::*;

verus! {

/// The little-endian bytes of `n`: least significant first, as many as the
/// value needs and at least one.
pub open spec fn spec_packed_le(n: u64) -> Seq<u8>
    decreases n,
{
    if n < 256 {
        seq![n as u8]
    } else {
        seq![(n % 256) as u8] + spec_packed_le(n / 256)
    }
}

/// The value a little-endian byte string stands for.
pub open spec fn spec_le_value(s: Seq<u8>) -> nat
    decreases s.len(),
{
    if s.len() == 0 {
        0
    } else {
        s[0] as nat + 256 * spec_le_value(s.skip(1))
    }
}

/// The part of a byte string a packed-integer decode reads: everything, up
/// to the eight bytes a 64-bit value can fill.
pub open spec fn spec_packed_window(s: Seq<u8>) -> Seq<u8> {
    if s.len() <= 8 {
        s
    } else {
        s.take(8)
    }
}

/// The packed encoding never needs more than eight bytes, and tighter value
/// bounds need fewer.
pub proof fn lemma_packed_le_len(n: u64)
    ensures
        1 <= spec_packed_le(n).len() <= 8,
        n < 0x100000000000000 ==> spec_packed_le(n).len() <= 7,
        n < 0x1000000000000 ==> spec_packed_le(n).len() <= 6,
        n < 0x10000000000 ==> spec_packed_le(n).len() <= 5,
        n < 0x100000000 ==> spec_packed_le(n).len() <= 4,
        n < 0x1000000 ==> spec_packed_le(n).len() <= 3,
        n < 0x10000 ==> spec_packed_le(n).len() <= 2,
        n < 0x100 ==> spec_packed_le(n).len() == 1,
    decreases n,
{
    if n >= 256 {
        lemma_packed_le_len(n / 256);
    }
}

/// Decoding a packed integer from exactly the bytes its encoding produced
/// gives the value back.
pub proof fn lemma_packed_round_trip(n: u64)
    ensures
        spec_le_value(spec_packed_le(n)) == n,
    decreases n,
{
    if n >= 256 {
        lemma_packed_round_trip(n / 256);
        assert(spec_packed_le(n).skip(1) =~= spec_packed_le(n / 256));
        vstd::arithmetic::div_mod::lemma_fundamental_div_mod(n as int, 256);
    } else {
        assert(spec_packed_le(n).skip(1) =~= Seq::<u8>::empty());
        assert(spec_le_value(spec_packed_le(n).skip(1)) == 0);
    }
}

/// Writes `number` as packed little-endian bytes. The byte count is carried
/// out of band by the caller, so no terminator is written.
pub fn encode_packed_int(number: u64) -> (r: Vec<u8>)
    ensures
        r@ == spec_packed_le(number),
        1 <= r@.len() <= 8,
{
    let mut out: Vec<u8> = Vec::new();
    let mut n: u64 = number;
    while n > 255
        invariant
            out@ + spec_packed_le(n) == spec_packed_le(number),
        decreases n,
    {
        proof {
            assert(n & 0xff == n % 256) by (bit_vector);
            assert(n >> 8 == n / 256) by (bit_vector);
            assert(n >= 256 ==> n / 256 < n) by (bit_vector);
            assert(out@.push((n % 256) as u8) + spec_packed_le(n / 256) =~= out@ + (seq![
                (n % 256) as u8,
            ] + spec_packed_le(n / 256)));
        }
        out.push((n & 0xff) as u8);
        n = n >> 8;
    }
    proof {
        assert(out@.push(n as u8) =~= out@ + spec_packed_le(n));
        lemma_packed_le_len(number);
    }
    out.push(n as u8);
    out
}

/// Reads a packed little-endian integer from `bytes`. The decoder trusts the
/// caller to supply exactly the bytes of one value: it accumulates until the
/// input is exhausted or eight bytes are in, whichever comes first.
pub fn decode_packed_int(bytes: &[u8]) -> (r: u64)
    ensures
        r as nat == spec_le_value(spec_packed_window(bytes@)),
        bytes@.len() <= 8 ==> r as nat == spec_le_value(bytes@),
{
    let m: usize = if bytes.len() <= 8 {
        bytes.len()
    } else {
        8
    };
    let mut rv: u64 = 0;
    let mut i: usize = m;
    proof {
        assert(1u64 << 0u64 == 1) by (bit_vector);
    }
    while i > 0
        invariant
            i <= m,
            m <= bytes@.len(),
            m <= 8,
            rv as nat == spec_le_value(bytes@.subrange(i as int, m as int)),
            rv < (1u64 << ((8 * (m - i)) as u64)) || i == 0,
        decreases i,
    {
        let b = bytes[i - 1];
        proof {
            let sa = (8 * (m - i)) as u64;
            assert(rv < (1u64 << sa) && sa <= 48 ==> (b as u64) + rv * 256 < (1u64 << ((sa
                + 8) as u64))) by (bit_vector);
            assert(rv < (1u64 << sa) && sa <= 56 ==> rv * 256 <= 0xffffffffffffffffu64 && (b as u64)
                + rv * 256 <= 0xffffffffffffffffu64) by (bit_vector);
            assert(bytes@.subrange((i - 1) as int, m as int).skip(1) =~= bytes@.subrange(
                i as int,
                m as int,
            ));
        }
        rv = (b as u64) + rv * 256;
        i = i - 1;
    }
    proof {
        assert(bytes@.subrange(0, m as int) =~= spec_packed_window(bytes@));
    }
    rv
}

/// What one decoded length prefix means: a frame of so many bytes follows,
/// the current stream is over, or the whole bottle is over.
#[derive(Clone, Copy, Debug, PartialEq, Eq, Structural)]
pub enum DecodedLength {
    /// An ordinary frame length.
    Length(u64),
    /// The `0x00` sentinel: end of the current stream.
    EndOfStream,
    /// The `0xff` sentinel: end of all streams.
    EndOfAllStreams,
}

/// The floor of the base-two logarithm.
pub open spec fn spec_log2(n: u64) -> u64
    decreases n,
{
    if n <= 1 {
        0
    } else {
        (1 + spec_log2(n / 2)) as u64
    }
}

/// Whether `n` is an exact power of two.
pub open spec fn spec_is_pow2(n: u64) -> bool {
    n >= 1 && (1u64 << spec_log2(n)) == n
}

/// The floor logarithm is at most 63 and its power of two is at most `n`.
pub proof fn lemma_log2_props(n: u64)
    requires
        n >= 1,
    ensures
        spec_log2(n) <= 63,
        (1u64 << spec_log2(n)) <= n,
    decreases n,
{
    if n >= 2 {
        lemma_log2_props(n / 2);
        let k = spec_log2(n / 2);
        assert(k <= 63 && (1u64 << k) <= 0x7fffffffffffffff ==> k <= 62) by (bit_vector);
        assert(k <= 62 ==> (1u64 << ((k + 1) as u64)) == 2 * (1u64 << k)) by (bit_vector);
    } else {
        assert(1u64 << 0u64 == 1) by (bit_vector);
    }
}

/// The floor of the base-two logarithm, computed by shifting the value down
/// to one.
pub fn log_base2(number: u64) -> (r: u64)
    requires
        number >= 1,
    ensures
        r == spec_log2(number),
        r <= 63,
{
    proof {
        lemma_log2_props(number);
    }
    let mut x: u64 = number;
    let mut k: u64 = 0;
    while x > 1
        invariant
            x >= 1,
            spec_log2(number) == k + spec_log2(x),
            spec_log2(number) <= 63,
        decreases x,
    {
        proof {
            assert(x >= 2 ==> x >> 1 == x / 2 && x / 2 >= 1 && x / 2 < x) by (bit_vector);
            lemma_log2_props(x / 2);
        }
        x = x >> 1;
        k = k + 1;
    }
    k
}

/// The length encoding of `n`, for `n` below 2^28: one byte for values
/// below 128 and for powers of two up to 2^21, else two, three or four
/// bytes, little-endian after a tag in the top bits of the first byte.
pub open spec fn spec_encode_length(n: u64) -> Seq<u8>
    recommends
        n < 0x10000000,
{
    if n < 128 {
        seq![n as u8]
    } else if spec_is_pow2(n) && n <= 0x200000 {
        seq![(0xf0 + spec_log2(n) - 7) as u8]
    } else if n < 8192 {
        seq![(0x80 | (n & 0x3f)) as u8, ((n >> 6) & 0xff) as u8]
    } else if n < 0x200000 {
        seq![(0xc0 | (n & 0x1f)) as u8, ((n >> 5) & 0xff) as u8, ((n >> 13) & 0xff) as u8]
    } else {
        seq![
            (0xe0 | (n & 0x0f)) as u8,
            ((n >> 4) & 0xff) as u8,
            ((n >> 12) & 0xff) as u8,
            ((n >> 20) & 0xff) as u8,
        ]
    }
}

/// How many bytes a length encoding occupies, read off its first byte.
pub open spec fn spec_length_of_length(b: u8) -> int {
    if b & 0x80 == 0 || b & 0xf0 == 0xf0 {
        1
    } else if b & 0xc0 == 0x80 {
        2
    } else if b & 0xe0 == 0xc0 {
        3
    } else {
        4
    }
}

/// Reading one length code off the front of `s`: the decoded meaning and
/// the count of bytes consumed, or the error.
pub open spec fn spec_read_length(s: Seq<u8>) -> Result<(DecodedLength, int), BottleError> {
    if s.len() == 0 {
        Err(BottleError::TruncatedInput)
    } else {
        let b0 = s[0];
        if b0 == 0x00 {
            Ok((DecodedLength::EndOfStream, 1))
        } else if b0 == 0xff {
            Ok((DecodedLength::EndOfAllStreams, 1))
        } else if b0 & 0x80 == 0 {
            Ok((DecodedLength::Length(b0 as u64), 1))
        } else if b0 & 0xf0 == 0xf0 {
            Ok((DecodedLength::Length(1u64 << ((7 + (b0 & 0x0f)) as u64)), 1))
        } else if b0 & 0xc0 == 0x80 {
            if s.len() < 2 {
                Err(BottleError::TruncatedInput)
            } else {
                Ok((DecodedLength::Length(((b0 & 0x3f) as u64 + ((s[1] as u64) << 6)) as u64), 2))
            }
        } else if b0 & 0xe0 == 0xc0 {
            if s.len() < 3 {
                Err(BottleError::TruncatedInput)
            } else {
                Ok(
                    (
                        DecodedLength::Length(
                            ((b0 & 0x1f) as u64 + ((s[1] as u64) << 5) + ((s[2] as u64)
                                << 13)) as u64,
                        ),
                        3,
                    ),
                )
            }
        } else {
            if s.len() < 4 {
                Err(BottleError::TruncatedInput)
            } else {
                Ok(
                    (
                        DecodedLength::Length(
                            ((b0 & 0x0f) as u64 + ((s[1] as u64) << 4) + ((s[2] as u64) << 12) + ((
                            s[3] as u64) << 20)) as u64,
                        ),
                        4,
                    ),
                )
            }
        }
    }
}

/// Encodes `n` as a length code, or reports `LengthOverflow` for any value
/// of 2^28 or more.
pub fn encode_length(number: u64) -> (r: Result<Vec<u8>, BottleError>)
    ensures
        number < 0x10000000 ==> (r matches Ok(v) && v@ == spec_encode_length(number)),
        number >= 0x10000000 ==> r == Err::<Vec<u8>, BottleError>(BottleError::LengthOverflow),
{
    let mut v: Vec<u8> = Vec::new();
    if number < 128 {
        v.push(number as u8);
        proof {
            assert(v@ =~= spec_encode_length(number));
        }
        Ok(v)
    } else {
        let k = log_base2(number);
        if number <= 0x200000 && (1u64 << k) == number {
            proof {
                assert(k <= 63 && (1u64 << k) == number && 128 <= number && number <= 0x200000
                    ==> 7 <= k && k <= 21) by (bit_vector);
            }
            v.push((0xf0 + k - 7) as u8);
            proof {
                assert(v@ =~= spec_encode_length(number));
            }
            Ok(v)
        } else if number < 8192 {
            v.push((0x80 | (number & 0x3f)) as u8);
            v.push(((number >> 6) & 0xff) as u8);
            proof {
                assert(v@ =~= spec_encode_length(number));
            }
            Ok(v)
        } else if number < 0x200000 {
            v.push((0xc0 | (number & 0x1f)) as u8);
            v.push(((number >> 5) & 0xff) as u8);
            v.push(((number >> 13) & 0xff) as u8);
            proof {
                assert(v@ =~= spec_encode_length(number));
            }
            Ok(v)
        } else if number < 0x10000000 {
            v.push((0xe0 | (number & 0x0f)) as u8);
            v.push(((number >> 4) & 0xff) as u8);
            v.push(((number >> 12) & 0xff) as u8);
            v.push(((number >> 20) & 0xff) as u8);
            proof {
                assert(v@ =~= spec_encode_length(number));
            }
            Ok(v)
        } else {
            Err(BottleError::LengthOverflow)
        }
    }
}

/// How many bytes the length code starting with `first` occupies.
pub fn length_of_length(first: u8) -> (r: usize)
    ensures
        r == spec_length_of_length(first),
{
    if first & 0x80 == 0 || first & 0xf0 == 0xf0 {
        1
    } else if first & 0xc0 == 0x80 {
        2
    } else if first & 0xe0 == 0xc0 {
        3
    } else {
        4
    }
}

/// Reads one length code from `bytes` at `pos`; on success the new position
/// just past the code comes back with the decoded meaning.
pub fn read_length(bytes: &[u8], pos: usize) -> (r: Result<(DecodedLength, usize), BottleError>)
    requires
        pos <= bytes@.len(),
    ensures
        match spec_read_length(bytes@.skip(pos as int)) {
            Ok((v, c)) => r matches Ok(p) && p.0 == v && p.1 == pos + c && pos + c
                <= bytes@.len(),
            Err(e) => r == Err::<(DecodedLength, usize), BottleError>(e),
        },
{
    let n = bytes.len();
    if pos >= n {
        return Err(BottleError::TruncatedInput);
    }
    let b0 = bytes[pos];
    let ghost s = bytes@.skip(pos as int);
    proof {
        assert(s[0] == bytes@[pos as int]);
    }
    if b0 == 0x00 {
        Ok((DecodedLength::EndOfStream, pos + 1))
    } else if b0 == 0xff {
        Ok((DecodedLength::EndOfAllStreams, pos + 1))
    } else if b0 & 0x80 == 0 {
        Ok((DecodedLength::Length(b0 as u64), pos + 1))
    } else if b0 & 0xf0 == 0xf0 {
        proof {
            assert(b0 & 0x0f <= 15) by (bit_vector);
        }
        Ok((DecodedLength::Length(1u64 << ((7 + (b0 & 0x0f)) as u64)), pos + 1))
    } else if b0 & 0xc0 == 0x80 {
        if n - pos < 2 {
            return Err(BottleError::TruncatedInput);
        }
        let b1 = bytes[pos + 1];
        proof {
            assert(b0 & 0x3f <= 0x3f) by (bit_vector);
            assert((b1 as u64) << 6 <= 0x3fc0) by (bit_vector);
        }
        Ok((DecodedLength::Length((b0 & 0x3f) as u64 + ((b1 as u64) << 6)), pos + 2))
    } else if b0 & 0xe0 == 0xc0 {
        if n - pos < 3 {
            return Err(BottleError::TruncatedInput);
        }
        let b1 = bytes[pos + 1];
        let b2 = bytes[pos + 2];
        proof {
            assert(b0 & 0x1f <= 0x1f) by (bit_vector);
            assert((b1 as u64) << 5 <= 0x1fe0) by (bit_vector);
            assert((b2 as u64) << 13 <= 0x1fe000) by (bit_vector);
        }
        Ok(
            (
                DecodedLength::Length((b0 & 0x1f) as u64 + ((b1 as u64) << 5) + ((b2 as u64) << 13)),
                pos + 3,
            ),
        )
    } else {
        if n - pos < 4 {
            return Err(BottleError::TruncatedInput);
        }
        let b1 = bytes[pos + 1];
        let b2 = bytes[pos + 2];
        let b3 = bytes[pos + 3];
        proof {
            assert(b0 & 0x0f <= 0x0f) by (bit_vector);
            assert((b1 as u64) << 4 <= 0xff0) by (bit_vector);
            assert((b2 as u64) << 12 <= 0xff000) by (bit_vector);
            assert((b3 as u64) << 20 <= 0xff00000) by (bit_vector);
        }
        Ok(
            (
                DecodedLength::Length(
                    (b0 & 0x0f) as u64 + ((b1 as u64) << 4) + ((b2 as u64) << 12) + ((b3 as u64)
                        << 20),
                ),
                pos + 4,
            ),
        )
    }
}

/// In the single-byte power-of-two branch the exponent sits between 7
/// and 21.
proof fn lemma_pow2_branch_exponent(n: u64)
    requires
        spec_is_pow2(n),
        128 <= n <= 0x200000,
    ensures
        7 <= spec_log2(n) <= 21,
{
    lemma_log2_props(n);
    let k = spec_log2(n);
    assert(k <= 63 && (1u64 << k) == n && 128 <= n && n <= 0x200000 ==> 7 <= k && k <= 21)
        by (bit_vector);
}

/// Decoding a length encoding, with anything at all after it on the wire,
/// gives the value back: zero comes back as the end-of-stream marker, every
/// other value below 2^28 as itself, and exactly the encoding's bytes are
/// consumed.
pub proof fn lemma_length_round_trip(n: u64, rest: Seq<u8>)
    requires
        n < 0x10000000,
    ensures
        spec_read_length(spec_encode_length(n) + rest) == Ok::<(DecodedLength, int), BottleError>(
            (
                if n == 0 {
                    DecodedLength::EndOfStream
                } else {
                    DecodedLength::Length(n)
                },
                spec_encode_length(n).len() as int,
            ),
        ),
{
    let s = spec_encode_length(n) + rest;
    if n < 128 {
        assert(n < 128 ==> ((n as u8) & 0x80) == 0 && (n as u8) as u64 == n && ((n as u8) == 0
            <==> n == 0) && (n as u8) != 0xff) by (bit_vector);
    } else if spec_is_pow2(n) && n <= 0x200000 {
        lemma_pow2_branch_exponent(n);
        let k = spec_log2(n);
        assert(7 <= k && k <= 21 ==> ((0xf0 + k - 7) as u8) != 0x00 && ((0xf0 + k - 7) as u8)
            != 0xff && (((0xf0 + k - 7) as u8) & 0x80) != 0 && (((0xf0 + k - 7) as u8) & 0xf0)
            == 0xf0 && (1u64 << ((7 + (((0xf0 + k - 7) as u8) & 0x0f)) as u64)) == (1u64 << k))
            by (bit_vector);
    } else if n < 8192 {
        assert(128 <= n && n < 8192 ==> ((0x80u64 | (n & 0x3f)) as u8) != 0x00 && ((0x80u64 | (n
            & 0x3f)) as u8) != 0xff && ((((0x80u64 | (n & 0x3f)) as u8) & 0x80) != 0) && ((((
        0x80u64 | (n & 0x3f)) as u8) & 0xf0) != 0xf0) && ((((0x80u64 | (n & 0x3f)) as u8) & 0xc0)
            == 0x80) && ((((0x80u64 | (n & 0x3f)) as u8) & 0x3f) as u64) + (((((n >> 6)
            & 0xff) as u8) as u64) << 6) == n) by (bit_vector);
    } else if n < 0x200000 {
        assert(8192 <= n && n < 0x200000 ==> ((0xc0u64 | (n & 0x1f)) as u8) != 0x00 && ((0xc0u64
            | (n & 0x1f)) as u8) != 0xff && ((((0xc0u64 | (n & 0x1f)) as u8) & 0x80) != 0) && ((((
        0xc0u64 | (n & 0x1f)) as u8) & 0xf0) != 0xf0) && ((((0xc0u64 | (n & 0x1f)) as u8) & 0xc0)
            != 0x80) && ((((0xc0u64 | (n & 0x1f)) as u8) & 0xe0) == 0xc0) && ((((0xc0u64 | (n
            & 0x1f)) as u8) & 0x1f) as u64) + (((((n >> 5) & 0xff) as u8) as u64) << 5) + (((((n
            >> 13) & 0xff) as u8) as u64) << 13) == n) by (bit_vector);
    } else {
        assert(0x200000 <= n && n < 0x10000000 ==> ((0xe0u64 | (n & 0x0f)) as u8) != 0x00 && ((
        0xe0u64 | (n & 0x0f)) as u8) != 0xff && ((((0xe0u64 | (n & 0x0f)) as u8) & 0x80) != 0)
            && ((((0xe0u64 | (n & 0x0f)) as u8) & 0xf0) != 0xf0) && ((((0xe0u64 | (n
            & 0x0f)) as u8) & 0xc0) != 0x80) && ((((0xe0u64 | (n & 0x0f)) as u8) & 0xe0) != 0xc0)
            && ((((0xe0u64 | (n & 0x0f)) as u8) & 0x0f) as u64) + (((((n >> 4) & 0xff) as u8) as u64)
            << 4) + (((((n >> 12) & 0xff) as u8) as u64) << 12) + (((((n >> 20)
            & 0xff) as u8) as u64) << 20) == n) by (bit_vector);
    }
}

/// Every exact power of two whose exponent lies between 7 and 21 encodes
/// in exactly one byte.
pub proof fn lemma_power_of_two_single_byte(n: u64)
    requires
        spec_is_pow2(n),
        7 <= spec_log2(n) <= 21,
    ensures
        spec_encode_length(n).len() == 1,
{
    let k = spec_log2(n);
    assert(7 <= k && k <= 21 && (1u64 << k) == n ==> 128 <= n && n <= 0x200000) by (bit_vector);
}

/// The byte `0xff` always decodes to the end-of-all-streams marker, and no
/// encodable value ever produces it; no nonzero value produces the `0x00`
/// end-of-stream byte either.
pub proof fn lemma_end_sentinels(n: u64, rest: Seq<u8>)
    requires
        n < 0x10000000,
    ensures
        spec_read_length(seq![0xffu8] + rest) == Ok::<(DecodedLength, int), BottleError>(
            (DecodedLength::EndOfAllStreams, 1),
        ),
        spec_encode_length(n)[0] != 0xff,
        n >= 1 ==> spec_encode_length(n)[0] != 0x00,
{
    assert((seq![0xffu8] + rest)[0] == 0xff);
    if n < 128 {
        assert(n < 128 ==> (n as u8) != 0xff && (n >= 1 ==> (n as u8) != 0)) by (bit_vector);
    } else if spec_is_pow2(n) && n <= 0x200000 {
        lemma_pow2_branch_exponent(n);
        let k = spec_log2(n);
        assert(7 <= k && k <= 21 ==> ((0xf0 + k - 7) as u8) != 0xff && ((0xf0 + k - 7) as u8) != 0)
            by (bit_vector);
    } else if n < 8192 {
        assert(((0x80u64 | (n & 0x3f)) as u8) != 0xff && ((0x80u64 | (n & 0x3f)) as u8) != 0)
            by (bit_vector);
    } else if n < 0x200000 {
        assert(((0xc0u64 | (n & 0x1f)) as u8) != 0xff && ((0xc0u64 | (n & 0x1f)) as u8) != 0)
            by (bit_vector);
    } else {
        assert(((0xe0u64 | (n & 0x0f)) as u8) != 0xff && ((0xe0u64 | (n & 0x0f)) as u8) != 0)
            by (bit_vector);
    }
}

/// Decodes one length code from the front of `bytes`, ignoring any bytes
/// past it.
pub fn decode_length(bytes: &[u8]) -> (r: Result<DecodedLength, BottleError>)
    ensures
        match spec_read_length(bytes@) {
            Ok((v, c)) => r == Ok::<DecodedLength, BottleError>(v),
            Err(e) => r == Err::<DecodedLength, BottleError>(e),
        },
{
    proof {
        assert(bytes@.skip(0) =~= bytes@);
    }
    match read_length(bytes, 0) {
        Ok((v, _)) => Ok(v),
        Err(e) => Err(e),
    }
}

} // verus!

