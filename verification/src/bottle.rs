//! The bottle layer: preamble, header stream, assembly and reading.
//!
//! A bottle opens with a fixed 8-byte preamble: the 4-byte magic signature,
//! a version byte and a reserved byte (both zero), then a byte whose high
//! nibble is the bottle type and whose low nibble holds bits 8 to 11 of the
//! header length, and finally bits 0 to 7 of the header length. The header
//! body itself is an opaque blob that an outside collaborator encodes and
//! decodes; this layer sees only its bytes and their count, which must not
//! exceed 4095. After the header come the framed sub-streams and the
//! closing end-of-all-streams sentinel.

use crate::framing;
use crate::BottleError;
use vstd::prelude::*;

verus! {

/// The closed set of bottle types the format assigns. An unassigned value
/// in the 0 to 15 range is an error on decode, not an unknown variant.
#[derive(Clone, Copy, Debug, PartialEq, Eq, Structural)]
pub enum BottleType {
    File,
    Hashed,
    Encrypted,
    Compressed,
    Test,
    Test2,
}

/// The nibble the format assigns to each bottle type.
pub open spec fn spec_type_code(t: BottleType) -> u8 {
    match t {
        BottleType::File => 0,
        BottleType::Hashed => 1,
        BottleType::Encrypted => 3,
        BottleType::Compressed => 4,
        BottleType::Test => 10,
        BottleType::Test2 => 11,
    }
}

/// Which bottle type a nibble names, if any.
pub open spec fn spec_decode_bottle_type(b: u8) -> Result<BottleType, BottleError> {
    if b == 0 {
        Ok(BottleType::File)
    } else if b == 1 {
        Ok(BottleType::Hashed)
    } else if b == 3 {
        Ok(BottleType::Encrypted)
    } else if b == 4 {
        Ok(BottleType::Compressed)
    } else if b == 10 {
        Ok(BottleType::Test)
    } else if b == 11 {
        Ok(BottleType::Test2)
    } else {
        Err(BottleError::UnknownBottleType(b))
    }
}

/// Maps a type nibble to its bottle type, or reports `UnknownBottleType`
/// for each of the values the format leaves unassigned.
pub fn decode_bottle_type(btype: u8) -> (r: Result<BottleType, BottleError>)
    ensures
        r == spec_decode_bottle_type(btype),
{
    match btype {
        0 => Ok(BottleType::File),
        1 => Ok(BottleType::Hashed),
        3 => Ok(BottleType::Encrypted),
        4 => Ok(BottleType::Compressed),
        10 => Ok(BottleType::Test),
        11 => Ok(BottleType::Test2),
        _ => Err(BottleError::UnknownBottleType(btype)),
    }
}

/// The nibble of a bottle type.
pub fn bottle_type_code(btype: BottleType) -> (r: u8)
    ensures
        r == spec_type_code(btype),
{
    match btype {
        BottleType::File => 0,
        BottleType::Hashed => 1,
        BottleType::Encrypted => 3,
        BottleType::Compressed => 4,
        BottleType::Test => 10,
        BottleType::Test2 => 11,
    }
}

/// Decoding a bottle type's own nibble gives the type back.
pub proof fn lemma_bottle_type_round_trip(t: BottleType)
    ensures
        spec_decode_bottle_type(spec_type_code(t)) == Ok::<BottleType, BottleError>(t),
{
    match t {
        BottleType::File => {},
        BottleType::Hashed => {},
        BottleType::Encrypted => {},
        BottleType::Compressed => {},
        BottleType::Test => {},
        BottleType::Test2 => {},
    }
}

/// The fixed 4-byte magic signature that opens every bottle.
pub open spec fn spec_magic() -> Seq<u8> {
    seq![0xf0u8, 0x9fu8, 0x8du8, 0xbcu8]
}

/// The 8-byte preamble: magic, version zero, reserved zero, type nibble
/// over the high bits of the header length, low byte of the header length.
pub open spec fn spec_preamble(t: BottleType, hlen: u64) -> Seq<u8>
    recommends
        hlen <= 4095,
{
    spec_magic() + seq![
        0u8,
        0u8,
        (spec_type_code(t) << 4) | (((hlen >> 8) & 0x0f) as u8),
        (hlen & 0xff) as u8,
    ]
}

/// Parsing the front of `s` as a preamble: the bottle type and the header
/// length, or the error. A magic mismatch is reported as soon as four
/// bytes show it, before anything else is looked at.
pub open spec fn spec_parse_preamble(s: Seq<u8>) -> Result<(BottleType, u64), BottleError> {
    if s.len() >= 4 && (s[0] != 0xf0 || s[1] != 0x9f || s[2] != 0x8d || s[3] != 0xbc) {
        Err(BottleError::BadMagic)
    } else if s.len() < 8 {
        Err(BottleError::TruncatedInput)
    } else if s[4] != 0 || s[5] != 0 {
        Err(BottleError::BadVersion(s[4], s[5]))
    } else {
        match spec_decode_bottle_type((s[6] >> 4) & 0x0f) {
            Err(e) => Err(e),
            Ok(t) => Ok((t, (((s[6] & 0x0f) as u64) << 8) | (s[7] as u64))),
        }
    }
}

/// Checks the magic, version and type of an incoming preamble and
/// reconstructs the header length from its split 12-bit field.
pub fn check_magic(bytes: &[u8]) -> (r: Result<(BottleType, usize), BottleError>)
    ensures
        match spec_parse_preamble(bytes@) {
            Ok((t, hl)) => r matches Ok(p) && p.0 == t && p.1 == hl && hl <= 4095 && bytes@.len()
                >= 8,
            Err(e) => r == Err::<(BottleType, usize), BottleError>(e),
        },
{
    if bytes.len() >= 4 && (bytes[0] != 0xf0 || bytes[1] != 0x9f || bytes[2] != 0x8d || bytes[3]
        != 0xbc) {
        return Err(BottleError::BadMagic);
    }
    if bytes.len() < 8 {
        return Err(BottleError::TruncatedInput);
    }
    if bytes[4] != 0 || bytes[5] != 0 {
        return Err(BottleError::BadVersion(bytes[4], bytes[5]));
    }
    let b6 = bytes[6];
    let b7 = bytes[7];
    let t = match decode_bottle_type((b6 >> 4) & 0x0f) {
        Ok(t) => t,
        Err(e) => {
            return Err(e);
        },
    };
    let hl: usize = (((b6 & 0x0f) as usize) << 8) | (b7 as usize);
    proof {
        assert((((b6 & 0x0f) as usize) << 8) | (b7 as usize) == (((((b6 & 0x0f) as u64) << 8) | (
        b7 as u64)) as usize) && ((((b6 & 0x0f) as u64) << 8) | (b7 as u64)) <= 4095)
            by (bit_vector);
    }
    Ok((t, hl))
}

/// Reading a header off the front of `s`: the bottle type, the header
/// body's bytes, and the count of bytes consumed, or the error.
pub open spec fn spec_read_header(s: Seq<u8>) -> Result<(BottleType, Seq<u8>, int), BottleError> {
    match spec_parse_preamble(s) {
        Err(e) => Err(e),
        Ok((t, hl)) => if s.len() < 8 + hl {
            Err(BottleError::TruncatedInput)
        } else {
            Ok((t, s.subrange(8, 8 + hl as int), 8 + hl as int))
        },
    }
}

/// Reads the preamble and the header body from the front of `bytes`:
/// the bottle type, the header body for the outside collaborator to
/// decode, and the position where the sub-streams begin.
pub fn read_header(bytes: &[u8]) -> (r: Result<(BottleType, Vec<u8>, usize), BottleError>)
    ensures
        match spec_read_header(bytes@) {
            Ok(p) => r matches Ok(q) && q.0 == p.0 && q.1@ == p.1 && q.2 == p.2 && p.2
                <= bytes@.len(),
            Err(e) => r == Err::<(BottleType, Vec<u8>, usize), BottleError>(e),
        },
{
    let (t, hl) = match check_magic(bytes) {
        Ok(p) => p,
        Err(e) => {
            return Err(e);
        },
    };
    if bytes.len() - 8 < hl {
        return Err(BottleError::TruncatedInput);
    }
    let mut hv: Vec<u8> = Vec::new();
    hv.extend_from_slice(&bytes[8..8 + hl]);
    proof {
        assert(hv@ =~= bytes@.subrange(8, 8 + hl as int));
    }
    Ok((t, hv, 8 + hl))
}

/// The bytes of a three-buffer list are those buffers, one after the next.
proof fn lemma_concat3(a: Seq<u8>, b: Seq<u8>, c: Seq<u8>)
    ensures
        framing::spec_concat(seq![a, b, c]) == a + b + c,
{
    assert(seq![a, b, c].skip(1) =~= seq![b, c]);
    assert(seq![b, c].skip(1) =~= seq![c]);
    framing::lemma_concat_single(c);
    assert(framing::spec_concat(seq![b, c]) == b + c);
    assert(a + (b + c) =~= a + b + c);
}

/// Builds the header chunk-group of a bottle: the magic buffer, the
/// version/type/length buffer, and the header body, or `HeaderTooLarge`
/// when the body does not fit the 12-bit length field.
pub fn make_header_stream(btype: BottleType, header: &Vec<u8>) -> (r: Result<
    Vec<Vec<u8>>,
    BottleError,
>)
    ensures
        match r {
            Ok(hs) => header@.len() <= 4095 && framing::spec_concat(hs.deep_view())
                == spec_preamble(btype, header@.len() as u64) + header@,
            Err(e) => e == BottleError::HeaderTooLarge && header@.len() > 4095,
        },
{
    if header.len() > 4095 {
        return Err(BottleError::HeaderTooLarge);
    }
    let hl = header.len();
    let mut magic: Vec<u8> = Vec::new();
    magic.push(0xf0);
    magic.push(0x9f);
    magic.push(0x8d);
    magic.push(0xbc);
    let code = bottle_type_code(btype);
    let mut version: Vec<u8> = Vec::new();
    version.push(0);
    version.push(0);
    version.push((code << 4) | (((hl >> 8) & 0x0f) as u8));
    version.push((hl & 0xff) as u8);
    let mut body: Vec<u8> = Vec::new();
    body.extend_from_slice(header.as_slice());
    let mut hs: Vec<Vec<u8>> = Vec::new();
    proof {
        assert(hl <= 4095 ==> ((((hl as u64) >> 8) & 0x0f) as u8) == (((hl >> 8) & 0x0f) as u8)
            && (((hl as u64) & 0xff) as u8) == ((hl & 0xff) as u8)) by (bit_vector);
        assert(magic@ =~= spec_magic());
        assert(body@ =~= header@);
    }
    hs.push(magic);
    hs.push(version);
    hs.push(body);
    proof {
        let pre = spec_preamble(btype, header@.len() as u64);
        assert(hs.deep_view() =~~= seq![pre.take(4), pre.skip(4), header@]);
        lemma_concat3(pre.take(4), pre.skip(4), header@);
        assert(pre.take(4) + pre.skip(4) + header@ =~= pre + header@);
    }
    Ok(hs)
}

/// The complete wire bytes of one bottle: preamble, header body, every
/// sub-stream's framed wire form, and the end-of-all-streams sentinel.
pub open spec fn spec_bottle_wire(t: BottleType, h: Seq<u8>, ss: Seq<Seq<Seq<Seq<u8>>>>) -> Seq<u8>
    recommends
        h.len() <= 4095,
        framing::spec_streams_ok(ss),
{
    spec_preamble(t, h.len() as u64) + h + framing::spec_streams_wire(ss) + seq![0xffu8]
}

/// The end-of-all-streams terminator as a chunk-group of one one-byte
/// buffer.
fn end_of_all_streams_group() -> (r: Vec<Vec<u8>>)
    ensures
        r.deep_view() == seq![seq![0xffu8]],
{
    let mut b: Vec<u8> = Vec::new();
    b.push(0xff);
    let mut g: Vec<Vec<u8>> = Vec::new();
    g.push(b);
    proof {
        assert(g.deep_view() =~~= seq![seq![0xffu8]]);
    }
    g
}

/// Assembles one bottle from a type, a header body, and an ordered list of
/// sub-streams (each a list of chunk-groups, each chunk-group a list of
/// byte buffers). The result is the bottle's outgoing sequence of
/// chunk-groups; flattened, it is exactly the bottle's wire bytes.
pub fn make_bottle(btype: BottleType, header: &Vec<u8>, streams: &Vec<Vec<Vec<Vec<u8>>>>) -> (r:
    Result<Vec<Vec<Vec<u8>>>, BottleError>)
    ensures
        match r {
            Ok(items) => header@.len() <= 4095 && framing::spec_streams_ok(streams.deep_view())
                && framing::spec_stream_bytes(items.deep_view()) == spec_bottle_wire(
                btype,
                header@,
                streams.deep_view(),
            ),
            Err(e) => (e == BottleError::HeaderTooLarge && header@.len() > 4095) || (e
                == BottleError::LengthOverflow && header@.len() <= 4095
                && !framing::spec_streams_ok(streams.deep_view())),
        },
{
    let hs = match make_header_stream(btype, header) {
        Ok(hs) => hs,
        Err(e) => {
            return Err(e);
        },
    };
    let ghost pre = spec_preamble(btype, header@.len() as u64);
    let ghost dv = streams.deep_view();
    let ghost hsd = hs.deep_view();
    let mut items: Vec<Vec<Vec<u8>>> = Vec::new();
    items.push(hs);
    let mut i: usize = 0;
    proof {
        assert(items.deep_view() =~~= seq![hsd]);
        assert(seq![hsd].skip(1) =~= Seq::<Seq<Seq<u8>>>::empty());
        assert(framing::spec_stream_bytes(Seq::<Seq<Seq<u8>>>::empty()) == Seq::<u8>::empty());
        assert(framing::spec_stream_bytes(seq![hsd]) == framing::spec_concat(hsd)
            + Seq::<u8>::empty());
        assert(framing::spec_concat(hsd) + Seq::<u8>::empty() =~= framing::spec_concat(hsd));
        assert(dv.skip(0) =~= dv);
    }
    while i < streams.len()
        invariant
            i <= streams@.len(),
            dv == streams.deep_view(),
            dv.len() == streams@.len(),
            header@.len() <= 4095,
            forall|j: int| 0 <= j < i ==> framing::spec_stream_ok(#[trigger] dv[j]),
            framing::spec_stream_bytes(items.deep_view()) + framing::spec_streams_wire(
                dv.skip(i as int),
            ) == pre + header@ + framing::spec_streams_wire(dv),
        decreases streams@.len() - i,
    {
        proof {
            assert(dv[i as int] == streams@[i as int].deep_view());
        }
        let mut framed = match framing::framed_vec_stream(&streams[i]) {
            Ok(fr) => fr,
            Err(e) => {
                proof {
                    assert(!framing::spec_stream_ok(dv[i as int]));
                }
                return Err(e);
            },
        };
        let ghost itemsd = items.deep_view();
        let ghost framedd = framed.deep_view();
        items.append(&mut framed);
        proof {
            assert(items.deep_view() =~= itemsd + framedd);
            framing::lemma_stream_bytes_append(itemsd, framedd);
            assert(dv.skip(i as int).skip(1) =~= dv.skip(i + 1));
            assert(dv.skip(i as int)[0] == dv[i as int]);
            assert((framing::spec_stream_bytes(itemsd) + framing::spec_substream_wire(
                dv[i as int],
            )) + framing::spec_streams_wire(dv.skip(i + 1)) =~= framing::spec_stream_bytes(itemsd)
                + (framing::spec_substream_wire(dv[i as int]) + framing::spec_streams_wire(
                dv.skip(i + 1),
            )));
        }
        i = i + 1;
    }
    let ghost itemsd = items.deep_view();
    items.push(end_of_all_streams_group());
    proof {
        assert(dv.skip(streams@.len() as int) =~= Seq::<Seq<Seq<Seq<u8>>>>::empty());
        assert(framing::spec_streams_wire(Seq::<Seq<Seq<Seq<u8>>>>::empty()) == Seq::<u8>::empty());
        assert(framing::spec_stream_bytes(itemsd) + Seq::<u8>::empty() =~= framing::spec_stream_bytes(
            itemsd,
        ));
        assert(items.deep_view() =~= itemsd + seq![seq![seq![0xffu8]]]);
        framing::lemma_stream_bytes_append(itemsd, seq![seq![seq![0xffu8]]]);
        framing::lemma_concat_single(seq![0xffu8]);
        assert(framing::spec_stream_bytes(seq![seq![seq![0xffu8]]]) =~= seq![0xffu8]) by {
            assert(seq![seq![seq![0xffu8]]].skip(1) =~= Seq::<Seq<Seq<u8>>>::empty());
            assert(framing::spec_stream_bytes(Seq::<Seq<Seq<u8>>>::empty()) == Seq::<u8>::empty());
            assert(framing::spec_concat(seq![seq![0xffu8]]) + Seq::<u8>::empty()
                =~= framing::spec_concat(seq![seq![0xffu8]]));
        }
        assert(framing::spec_stream_bytes(items.deep_view()) =~= spec_bottle_wire(
            btype,
            header@,
            dv,
        ));
    }
    Ok(items)
}

/// Flattens a bottle's outgoing sequence of chunk-groups into the wire
/// bytes a consumer would see.
pub fn flatten_stream(items: &Vec<Vec<Vec<u8>>>) -> (r: Vec<u8>)
    ensures
        r@ == framing::spec_stream_bytes(items.deep_view()),
{
    let ghost dv = items.deep_view();
    let mut out: Vec<u8> = Vec::new();
    let mut i: usize = 0;
    proof {
        assert(dv.take(0) =~= Seq::<Seq<Seq<u8>>>::empty());
    }
    while i < items.len()
        invariant
            i <= items@.len(),
            dv == items.deep_view(),
            dv.len() == items@.len(),
            out@ == framing::spec_stream_bytes(dv.take(i as int)),
        decreases items@.len() - i,
    {
        let group = &items[i];
        let ghost gdv = dv[i as int];
        proof {
            assert(gdv == items@[i as int].deep_view());
            assert(gdv.take(0) =~= Seq::<Seq<u8>>::empty());
        }
        let mut j: usize = 0;
        while j < group.len()
            invariant
                j <= group@.len(),
                gdv == group.deep_view(),
                gdv.len() == group@.len(),
                out@ == framing::spec_stream_bytes(dv.take(i as int)) + framing::spec_concat(
                    gdv.take(j as int),
                ),
            decreases group@.len() - j,
        {
            out.extend_from_slice(group[j].as_slice());
            proof {
                assert(gdv[j as int] =~= group@[j as int]@);
                assert(gdv.take(j + 1) =~= gdv.take(j as int) + seq![gdv[j as int]]);
                framing::lemma_concat_append(gdv.take(j as int), seq![gdv[j as int]]);
                framing::lemma_concat_single(gdv[j as int]);
                assert(out@ =~= framing::spec_stream_bytes(dv.take(i as int)) + framing::spec_concat(
                    gdv.take(j + 1),
                ));
            }
            j = j + 1;
        }
        proof {
            assert(gdv.take(group@.len() as int) =~= gdv);
            assert(dv.take(i + 1) =~= dv.take(i as int) + seq![gdv]);
            framing::lemma_stream_bytes_append(dv.take(i as int), seq![gdv]);
            assert(framing::spec_stream_bytes(seq![gdv]) =~= framing::spec_concat(gdv)) by {
                assert(seq![gdv].skip(1) =~= Seq::<Seq<Seq<u8>>>::empty());
                assert(framing::spec_stream_bytes(Seq::<Seq<Seq<u8>>>::empty())
                    == Seq::<u8>::empty());
                assert(framing::spec_concat(gdv) + Seq::<u8>::empty() =~= framing::spec_concat(
                    gdv,
                ));
            }
            assert(out@ =~= framing::spec_stream_bytes(dv.take(i + 1)));
        }
        i = i + 1;
    }
    proof {
        assert(dv.take(items@.len() as int) =~= dv);
    }
    out
}

/// Reading one whole bottle off the front of `s`: its type, its header
/// body, and its sub-streams' frame payloads, or the error. Bytes past the
/// end-of-all-streams sentinel are left alone.
pub open spec fn spec_read_bottle(s: Seq<u8>) -> Result<
    (BottleType, Seq<u8>, Seq<Seq<Seq<u8>>>),
    BottleError,
> {
    match spec_read_header(s) {
        Err(e) => Err(e),
        Ok((t, h, c)) => match framing::spec_read_streams(s.skip(c)) {
            Err(e) => Err(e),
            Ok((ss, _)) => Ok((t, h, ss)),
        },
    }
}

/// Reads one whole bottle from `bytes`: the type, the header body, and
/// every sub-stream as its list of frame payloads.
pub fn read_bottle(bytes: &[u8]) -> (r: Result<
    (BottleType, Vec<u8>, Vec<Vec<Vec<u8>>>),
    BottleError,
>)
    ensures
        match spec_read_bottle(bytes@) {
            Ok(p) => r matches Ok(q) && q.0 == p.0 && q.1@ == p.1 && q.2.deep_view() == p.2,
            Err(e) => r == Err::<(BottleType, Vec<u8>, Vec<Vec<Vec<u8>>>), BottleError>(e),
        },
{
    let (t, hv, end) = match read_header(bytes) {
        Ok(q) => q,
        Err(e) => {
            return Err(e);
        },
    };
    match framing::read_streams(bytes, end) {
        Ok((streams, _)) => Ok((t, hv, streams)),
        Err(e) => Err(e),
    }
}

/// Building a preamble and parsing it gives the type and header length
/// back, whatever follows on the wire.
pub proof fn lemma_preamble_round_trip(t: BottleType, hlen: u64, rest: Seq<u8>)
    requires
        hlen <= 4095,
    ensures
        spec_parse_preamble(spec_preamble(t, hlen) + rest) == Ok::<(BottleType, u64), BottleError>(
            (t, hlen),
        ),
{
    let p = spec_preamble(t, hlen) + rest;
    let c = spec_type_code(t);
    let hi = ((hlen >> 8) & 0x0f) as u8;
    assert(c <= 15);
    assert(hlen <= 4095 ==> ((((((hlen >> 8) & 0x0f) as u8) as u64) << 8) | (((hlen
        & 0xff) as u8) as u64)) == hlen) by (bit_vector);
    assert(((hlen >> 8) & 0x0f) as u8 <= 15) by (bit_vector);
    assert(c <= 15 && hi <= 15 ==> ((((c << 4) | hi) >> 4) & 0x0f) == c && (((c << 4) | hi)
        & 0x0f) == hi) by (bit_vector);
    lemma_bottle_type_round_trip(t);
    assert(p[6] == (c << 4) | hi);
    assert(p[7] == (hlen & 0xff) as u8);
}

/// Round trip of one whole bottle: building a bottle from a type, a header
/// body of at most 4095 bytes, and sub-streams whose chunk-groups each
/// hold between one byte and just under 2^28, then reading its wire bytes
/// back, gives the same type, the same header body, and the same
/// sub-stream payloads in the same order.
pub proof fn lemma_bottle_round_trip(t: BottleType, h: Seq<u8>, ss: Seq<Seq<Seq<Seq<u8>>>>)
    requires
        h.len() <= 4095,
        framing::spec_streams_ok(ss),
        framing::spec_streams_framable(ss),
    ensures
        spec_read_bottle(spec_bottle_wire(t, h, ss)) == Ok::<
            (BottleType, Seq<u8>, Seq<Seq<Seq<u8>>>),
            BottleError,
        >((t, h, framing::spec_streams_payloads(ss))),
{
    let wire = spec_bottle_wire(t, h, ss);
    let hlen = h.len() as u64;
    let tail = h + (framing::spec_streams_wire(ss) + seq![0xffu8]);
    lemma_preamble_round_trip(t, hlen, tail);
    assert(wire =~= spec_preamble(t, hlen) + tail);
    assert(wire.subrange(8, 8 + hlen as int) =~= h);
    assert(wire.skip(8 + hlen as int) =~= framing::spec_streams_wire(ss) + (seq![0xffu8]
        + Seq::<u8>::empty()));
    framing::lemma_read_streams_of_wire(ss, Seq::empty());
}

} // verus!
