//! Stream framing: the wire form of one sub-stream.
//!
//! A sub-stream is a sequence of chunk-groups; a chunk-group is an ordered
//! list of byte buffers treated as one contiguous unit. On the wire each
//! chunk-group becomes a frame: the group's total byte length as a length
//! code, then the group's bytes, and the sub-stream is closed by the one-byte
//! end-of-stream sentinel. The reader walks frames back out of a byte string
//! until it meets that sentinel.

use crate::zint;
use crate::zint::DecodedLength;
use crate::BottleError;
use vstd::prelude::*;

verus! {

/// The bytes of a chunk-group: its buffers, concatenated in order.
pub open spec fn spec_concat(bufs: Seq<Seq<u8>>) -> Seq<u8>
    decreases bufs.len(),
{
    if bufs.len() == 0 {
        Seq::empty()
    } else {
        bufs[0] + spec_concat(bufs.skip(1))
    }
}

/// Concatenation distributes over appending buffer lists.
pub proof fn lemma_concat_append(a: Seq<Seq<u8>>, b: Seq<Seq<u8>>)
    ensures
        spec_concat(a + b) == spec_concat(a) + spec_concat(b),
    decreases a.len(),
{
    if a.len() == 0 {
        assert(a + b =~= b);
        assert(spec_concat(a) + spec_concat(b) =~= spec_concat(b));
    } else {
        lemma_concat_append(a.skip(1), b);
        assert((a + b).skip(1) =~= a.skip(1) + b);
        assert((a[0] + spec_concat(a.skip(1))) + spec_concat(b) =~= a[0] + (spec_concat(a.skip(1))
            + spec_concat(b)));
    }
}

/// A single buffer concatenates to itself.
pub proof fn lemma_concat_single(x: Seq<u8>)
    ensures
        spec_concat(seq![x]) == x,
{
    assert(seq![x].skip(1) =~= Seq::<Seq<u8>>::empty());
    assert(spec_concat(seq![x].skip(1)) == Seq::<u8>::empty());
    assert(x + Seq::<u8>::empty() =~= x);
}

/// Peeling the first buffer off a concatenation.
pub proof fn lemma_concat_cons(x: Seq<u8>, g: Seq<Seq<u8>>)
    ensures
        spec_concat(seq![x] + g) == x + spec_concat(g),
{
    assert((seq![x] + g).skip(1) =~= g);
    assert((seq![x] + g)[0] == x);
}

/// A concatenation splits at any index.
pub proof fn lemma_concat_split(g: Seq<Seq<u8>>, i: int)
    requires
        0 <= i <= g.len(),
    ensures
        spec_concat(g) == spec_concat(g.take(i)) + spec_concat(g.skip(i)),
{
    assert(g.take(i) + g.skip(i) =~= g);
    lemma_concat_append(g.take(i), g.skip(i));
}

/// Whether one chunk-group's total length fits the length code.
pub open spec fn spec_group_ok(g: Seq<Seq<u8>>) -> bool {
    spec_concat(g).len() < 0x10000000
}

/// Whether every chunk-group of a sub-stream fits the length code.
pub open spec fn spec_stream_ok(groups: Seq<Seq<Seq<u8>>>) -> bool {
    forall|i: int| 0 <= i < groups.len() ==> spec_group_ok(#[trigger] groups[i])
}

/// One framed chunk-group: the length code of the group's total, as a new
/// leading buffer, then the group's buffers unchanged.
pub open spec fn spec_framed_group(g: Seq<Seq<u8>>) -> Seq<Seq<u8>>
    recommends
        spec_group_ok(g),
{
    seq![zint::spec_encode_length(spec_concat(g).len() as u64)] + g
}

/// The wire bytes of one frame.
pub open spec fn spec_frame_wire(g: Seq<Seq<u8>>) -> Seq<u8>
    recommends
        spec_group_ok(g),
{
    zint::spec_encode_length(spec_concat(g).len() as u64) + spec_concat(g)
}

/// The wire bytes of one whole sub-stream: its frames in order, closed by
/// the end-of-stream sentinel byte.
pub open spec fn spec_substream_wire(groups: Seq<Seq<Seq<u8>>>) -> Seq<u8>
    recommends
        spec_stream_ok(groups),
    decreases groups.len(),
{
    if groups.len() == 0 {
        seq![0u8]
    } else {
        spec_frame_wire(groups[0]) + spec_substream_wire(groups.skip(1))
    }
}

/// The bytes of a stream of chunk-groups, flattened in order.
pub open spec fn spec_stream_bytes(items: Seq<Seq<Seq<u8>>>) -> Seq<u8>
    decreases items.len(),
{
    if items.len() == 0 {
        Seq::empty()
    } else {
        spec_concat(items[0]) + spec_stream_bytes(items.skip(1))
    }
}

/// Flattening distributes over appending item lists.
pub proof fn lemma_stream_bytes_append(a: Seq<Seq<Seq<u8>>>, b: Seq<Seq<Seq<u8>>>)
    ensures
        spec_stream_bytes(a + b) == spec_stream_bytes(a) + spec_stream_bytes(b),
    decreases a.len(),
{
    if a.len() == 0 {
        assert(a + b =~= b);
        assert(spec_stream_bytes(a) + spec_stream_bytes(b) =~= spec_stream_bytes(b));
    } else {
        lemma_stream_bytes_append(a.skip(1), b);
        assert((a + b).skip(1) =~= a.skip(1) + b);
        assert((spec_concat(a[0]) + spec_stream_bytes(a.skip(1))) + spec_stream_bytes(b)
            =~= spec_concat(a[0]) + (spec_stream_bytes(a.skip(1)) + spec_stream_bytes(b)));
    }
}

/// A copy of one byte buffer.
fn clone_buffer(src: &Vec<u8>) -> (r: Vec<u8>)
    ensures
        r@ == src@,
{
    let mut r: Vec<u8> = Vec::new();
    r.extend_from_slice(src.as_slice());
    proof {
        assert(r@ =~= src@);
    }
    r
}

/// The total byte length of one chunk-group, or `LengthOverflow` as soon
/// as it is known not to fit the length code.
fn group_total(group: &Vec<Vec<u8>>) -> (r: Result<u64, BottleError>)
    ensures
        match r {
            Ok(t) => t == spec_concat(group.deep_view()).len() && t < 0x10000000,
            Err(e) => e == BottleError::LengthOverflow && !spec_group_ok(group.deep_view()),
        },
{
    let ghost dv = group.deep_view();
    let mut total: u64 = 0;
    let mut i: usize = 0;
    proof {
        assert(dv.take(0) =~= Seq::<Seq<u8>>::empty());
    }
    while i < group.len()
        invariant
            i <= group@.len(),
            dv == group.deep_view(),
            dv.len() == group@.len(),
            total == spec_concat(dv.take(i as int)).len(),
            total < 0x10000000,
        decreases group@.len() - i,
    {
        let l = group[i].len();
        proof {
            assert(dv[i as int] =~= group@[i as int]@);
            lemma_concat_split(dv, i + 1);
            lemma_concat_split(dv.take(i + 1), i as int);
            assert(dv.take(i + 1).take(i as int) =~= dv.take(i as int));
            assert(dv.take(i + 1).skip(i as int) =~= seq![dv[i as int]]);
            lemma_concat_single(dv[i as int]);
        }
        if l as u64 >= 0x10000000 {
            return Err(BottleError::LengthOverflow);
        }
        total = total + l as u64;
        if total >= 0x10000000 {
            return Err(BottleError::LengthOverflow);
        }
        i = i + 1;
    }
    proof {
        assert(dv.take(group@.len() as int) =~= dv);
    }
    Ok(total)
}

/// Frames one chunk-group: a buffer holding the length code of the group's
/// total goes in front of the group's own buffers.
pub fn frame_chunk_group(group: &Vec<Vec<u8>>) -> (r: Result<Vec<Vec<u8>>, BottleError>)
    ensures
        match r {
            Ok(fr) => spec_group_ok(group.deep_view()) && fr.deep_view() == spec_framed_group(
                group.deep_view(),
            ),
            Err(e) => e == BottleError::LengthOverflow && !spec_group_ok(group.deep_view()),
        },
{
    let total = match group_total(group) {
        Ok(t) => t,
        Err(e) => {
            return Err(e);
        },
    };
    let enc = match zint::encode_length(total) {
        Ok(v) => v,
        Err(e) => {
            proof {
                assert(false);
            }
            return Err(e);
        },
    };
    let mut out: Vec<Vec<u8>> = Vec::new();
    out.push(enc);
    let mut i: usize = 0;
    while i < group.len()
        invariant
            i <= group@.len(),
            out@.len() == i + 1,
            out.deep_view()[0] == zint::spec_encode_length(
                spec_concat(group.deep_view()).len() as u64,
            ),
            forall|j: int| 0 <= j < i ==> out.deep_view()[j + 1] == group.deep_view()[j],
        decreases group@.len() - i,
    {
        let nb = clone_buffer(&group[i]);
        proof {
            assert(group.deep_view()[i as int] =~= group@[i as int]@);
        }
        out.push(nb);
        i = i + 1;
    }
    proof {
        assert(out.deep_view() =~= spec_framed_group(group.deep_view()));
    }
    Ok(out)
}

/// The end-of-stream terminator as a chunk-group of one one-byte buffer.
fn end_of_stream_group() -> (r: Vec<Vec<u8>>)
    ensures
        r.deep_view() == seq![seq![0u8]],
{
    let mut b: Vec<u8> = Vec::new();
    b.push(0u8);
    let mut g: Vec<Vec<u8>> = Vec::new();
    g.push(b);
    proof {
        assert(g.deep_view() =~~= seq![seq![0u8]]);
    }
    g
}

/// Flattening the framed form of a sub-stream gives exactly the sub-stream's
/// wire bytes.
pub proof fn lemma_framed_stream_bytes(groups: Seq<Seq<Seq<u8>>>)
    requires
        spec_stream_ok(groups),
    ensures
        spec_stream_bytes(
            groups.map_values(|g: Seq<Seq<u8>>| spec_framed_group(g)).push(seq![seq![0u8]]),
        ) == spec_substream_wire(groups),
    decreases groups.len(),
{
    let m = groups.map_values(|g: Seq<Seq<u8>>| spec_framed_group(g)).push(seq![seq![0u8]]);
    if groups.len() == 0 {
        lemma_concat_single(seq![0u8]);
        assert(m =~= seq![seq![seq![0u8]]]);
        assert(m.skip(1) =~= Seq::<Seq<Seq<u8>>>::empty());
        assert(spec_stream_bytes(m.skip(1)) == Seq::<u8>::empty());
        assert(seq![0u8] + Seq::<u8>::empty() =~= seq![0u8]);
        assert(spec_concat(seq![seq![0u8]]) == seq![0u8]);
    } else {
        lemma_framed_stream_bytes(groups.skip(1));
        assert(m.skip(1) =~= groups.skip(1).map_values(|g: Seq<Seq<u8>>| spec_framed_group(g)).push(
            seq![seq![0u8]],
        ));
        assert(m[0] == spec_framed_group(groups[0]));
        lemma_concat_cons(
            zint::spec_encode_length(spec_concat(groups[0]).len() as u64),
            groups[0],
        );
        assert((zint::spec_encode_length(spec_concat(groups[0]).len() as u64) + spec_concat(
            groups[0],
        )) + spec_substream_wire(groups.skip(1)) =~= zint::spec_encode_length(
            spec_concat(groups[0]).len() as u64,
        ) + (spec_concat(groups[0]) + spec_substream_wire(groups.skip(1))));
        assert(spec_frame_wire(groups[0]) + spec_substream_wire(groups.skip(1))
            =~= spec_substream_wire(groups));
    }
}

/// Frames a whole sub-stream: every chunk-group gets its length code in
/// front, and the end-of-stream terminator group closes the sequence.
pub fn framed_vec_stream(s: &Vec<Vec<Vec<u8>>>) -> (r: Result<Vec<Vec<Vec<u8>>>, BottleError>)
    ensures
        match r {
            Ok(out) => spec_stream_ok(s.deep_view()) && out.deep_view() == s.deep_view().map_values(
                |g: Seq<Seq<u8>>| spec_framed_group(g),
            ).push(seq![seq![0u8]]) && spec_stream_bytes(out.deep_view()) == spec_substream_wire(
                s.deep_view(),
            ),
            Err(e) => e == BottleError::LengthOverflow && !spec_stream_ok(s.deep_view()),
        },
{
    let mut out: Vec<Vec<Vec<u8>>> = Vec::new();
    let mut i: usize = 0;
    while i < s.len()
        invariant
            i <= s@.len(),
            out@.len() == i,
            s.deep_view().len() == s@.len(),
            forall|j: int| 0 <= j < i ==> spec_group_ok(#[trigger] s.deep_view()[j]),
            forall|j: int|
                0 <= j < i ==> out.deep_view()[j] == spec_framed_group(#[trigger] s.deep_view()[j]),
        decreases s@.len() - i,
    {
        proof {
            assert(s.deep_view()[i as int] == s@[i as int].deep_view());
        }
        match frame_chunk_group(&s[i]) {
            Ok(fr) => {
                out.push(fr);
            },
            Err(e) => {
                return Err(e);
            },
        }
        i = i + 1;
    }
    out.push(end_of_stream_group());
    proof {
        assert(out.deep_view() =~= s.deep_view().map_values(
            |g: Seq<Seq<u8>>| spec_framed_group(g),
        ).push(seq![seq![0u8]]));
        lemma_framed_stream_bytes(s.deep_view());
    }
    Ok(out)
}

/// Reading one sub-stream off the front of `s`: the frame payloads in
/// order and the count of bytes consumed through the end-of-stream
/// sentinel, or the error. An end-of-all-streams sentinel or an exhausted
/// input inside an open sub-stream is a truncation.
pub open spec fn spec_read_substream(s: Seq<u8>) -> Result<(Seq<Seq<u8>>, int), BottleError>
    decreases s.len(),
{
    match zint::spec_read_length(s) {
        Err(e) => Err(e),
        Ok((DecodedLength::EndOfStream, c)) => Ok((Seq::empty(), c)),
        Ok((DecodedLength::EndOfAllStreams, c)) => Err(BottleError::TruncatedInput),
        Ok((DecodedLength::Length(nlen), c)) => if s.len() < c + nlen {
            Err(BottleError::TruncatedInput)
        } else {
            match spec_read_substream(s.skip(c + nlen as int)) {
                Err(e) => Err(e),
                Ok((frames, c2)) => Ok(
                    (seq![s.subrange(c, c + nlen as int)] + frames, c + nlen + c2),
                ),
            }
        },
    }
}

/// A successful sub-stream read consumes at least one byte and no more
/// than the input holds.
pub proof fn lemma_read_substream_consumed(s: Seq<u8>)
    ensures
        match spec_read_substream(s) {
            Ok(p) => 1 <= p.1 <= s.len(),
            Err(_) => true,
        },
    decreases s.len(),
{
    match zint::spec_read_length(s) {
        Err(_) => {},
        Ok((DecodedLength::EndOfStream, c)) => {},
        Ok((DecodedLength::EndOfAllStreams, c)) => {},
        Ok((DecodedLength::Length(nlen), c)) => {
            if s.len() >= c + nlen {
                lemma_read_substream_consumed(s.skip(c + nlen as int));
            }
        },
    }
}

/// Reading every sub-stream off the front of `s`: the sub-streams (each a
/// sequence of frame payloads) and the count of bytes consumed through the
/// end-of-all-streams sentinel, or the error.
pub open spec fn spec_read_streams(s: Seq<u8>) -> Result<(Seq<Seq<Seq<u8>>>, int), BottleError>
    decreases s.len(),
    via spec_read_streams_decreases
{
    match zint::spec_read_length(s) {
        Err(e) => Err(e),
        Ok((DecodedLength::EndOfAllStreams, c)) => Ok((Seq::empty(), c)),
        Ok(_) => match spec_read_substream(s) {
            Err(e) => Err(e),
            Ok((frames, c)) => match spec_read_streams(s.skip(c)) {
                Err(e) => Err(e),
                Ok((streams, c2)) => Ok((seq![frames] + streams, c + c2)),
            },
        },
    }
}

#[via_fn]
proof fn spec_read_streams_decreases(s: Seq<u8>) {
    lemma_read_substream_consumed(s);
}

/// A successful read of all sub-streams consumes at least one byte and no
/// more than the input holds.
pub proof fn lemma_read_streams_consumed(s: Seq<u8>)
    ensures
        match spec_read_streams(s) {
            Ok(p) => 1 <= p.1 <= s.len(),
            Err(_) => true,
        },
    decreases s.len(),
{
    lemma_read_substream_consumed(s);
    match zint::spec_read_length(s) {
        Err(_) => {},
        Ok((DecodedLength::EndOfAllStreams, c)) => {},
        Ok(_) => {
            match spec_read_substream(s) {
                Err(_) => {},
                Ok((frames, c)) => {
                    lemma_read_streams_consumed(s.skip(c));
                },
            }
        },
    }
}

/// The frame payloads a sub-stream carries: each chunk-group's bytes.
pub open spec fn spec_substream_payloads(groups: Seq<Seq<Seq<u8>>>) -> Seq<Seq<u8>> {
    groups.map_values(|g: Seq<Seq<u8>>| spec_concat(g))
}

/// Whether every chunk-group of a sub-stream holds at least one byte, so
/// that no frame's length code collides with a sentinel.
pub open spec fn spec_stream_framable(groups: Seq<Seq<Seq<u8>>>) -> bool {
    forall|j: int| 0 <= j < groups.len() ==> spec_concat(#[trigger] groups[j]).len() >= 1
}

/// Reading a sub-stream's wire form, with anything at all after it, gives
/// back exactly its frame payloads and consumes exactly its wire bytes.
pub proof fn lemma_read_substream_of_wire(groups: Seq<Seq<Seq<u8>>>, rest: Seq<u8>)
    requires
        spec_stream_ok(groups),
        spec_stream_framable(groups),
    ensures
        spec_read_substream(spec_substream_wire(groups) + rest) == Ok::<
            (Seq<Seq<u8>>, int),
            BottleError,
        >((spec_substream_payloads(groups), spec_substream_wire(groups).len() as int)),
    decreases groups.len(),
{
    let s = spec_substream_wire(groups) + rest;
    if groups.len() == 0 {
        assert(s[0] == 0u8);
        assert(spec_substream_payloads(groups) =~= Seq::<Seq<u8>>::empty());
    } else {
        let g0 = groups[0];
        let pay0 = spec_concat(g0);
        let n0 = pay0.len() as u64;
        let enc = zint::spec_encode_length(n0);
        let tail = spec_substream_wire(groups.skip(1));
        zint::lemma_length_round_trip(n0, pay0 + (tail + rest));
        assert(s =~= enc + (pay0 + (tail + rest)));
        let c = enc.len() as int;
        assert(s.subrange(c, c + n0 as int) =~= pay0);
        assert(s.skip(c + n0 as int) =~= tail + rest);
        assert(spec_stream_ok(groups.skip(1))) by {
            assert(forall|j: int|
                0 <= j < groups.skip(1).len() ==> groups.skip(1)[j] == groups[j + 1]);
        }
        assert(spec_stream_framable(groups.skip(1))) by {
            assert(forall|j: int|
                0 <= j < groups.skip(1).len() ==> groups.skip(1)[j] == groups[j + 1]);
        }
        lemma_read_substream_of_wire(groups.skip(1), rest);
        assert(seq![pay0] + spec_substream_payloads(groups.skip(1)) =~= spec_substream_payloads(
            groups,
        ));
    }
}

/// The wire bytes of a whole ordered list of sub-streams, one wire form
/// after the next, without the closing sentinel.
pub open spec fn spec_streams_wire(ss: Seq<Seq<Seq<Seq<u8>>>>) -> Seq<u8>
    decreases ss.len(),
{
    if ss.len() == 0 {
        Seq::empty()
    } else {
        spec_substream_wire(ss[0]) + spec_streams_wire(ss.skip(1))
    }
}

/// Whether every chunk-group of every sub-stream fits the length code.
pub open spec fn spec_streams_ok(ss: Seq<Seq<Seq<Seq<u8>>>>) -> bool {
    forall|i: int| 0 <= i < ss.len() ==> spec_stream_ok(#[trigger] ss[i])
}

/// Whether every chunk-group of every sub-stream holds at least one byte.
pub open spec fn spec_streams_framable(ss: Seq<Seq<Seq<Seq<u8>>>>) -> bool {
    forall|i: int| 0 <= i < ss.len() ==> spec_stream_framable(#[trigger] ss[i])
}

/// The payloads of every sub-stream in order.
pub open spec fn spec_streams_payloads(ss: Seq<Seq<Seq<Seq<u8>>>>) -> Seq<Seq<Seq<u8>>> {
    ss.map_values(|sub: Seq<Seq<Seq<u8>>>| spec_substream_payloads(sub))
}

/// Reading the wire forms of all sub-streams followed by the
/// end-of-all-streams sentinel, with anything at all after that, gives
/// back exactly the sub-streams' payloads and stops just past the
/// sentinel.
pub proof fn lemma_read_streams_of_wire(ss: Seq<Seq<Seq<Seq<u8>>>>, rest: Seq<u8>)
    requires
        spec_streams_ok(ss),
        spec_streams_framable(ss),
    ensures
        spec_read_streams(spec_streams_wire(ss) + (seq![0xffu8] + rest)) == Ok::<
            (Seq<Seq<Seq<u8>>>, int),
            BottleError,
        >((spec_streams_payloads(ss), spec_streams_wire(ss).len() + 1int)),
    decreases ss.len(),
{
    let s = spec_streams_wire(ss) + (seq![0xffu8] + rest);
    if ss.len() == 0 {
        assert(s =~= seq![0xffu8] + rest);
        assert(s[0] == 0xffu8);
        assert(spec_streams_payloads(ss) =~= Seq::<Seq<Seq<u8>>>::empty());
    } else {
        let sub0 = ss[0];
        let w0 = spec_substream_wire(sub0);
        let tail = spec_streams_wire(ss.skip(1));
        assert(s =~= w0 + (tail + (seq![0xffu8] + rest)));
        lemma_read_substream_of_wire(sub0, tail + (seq![0xffu8] + rest));
        match zint::spec_read_length(s) {
            Err(_) => {
                assert(false);
            },
            Ok((DecodedLength::EndOfAllStreams, _)) => {
                assert(false);
            },
            Ok(_) => {},
        }
        assert(s.skip(w0.len() as int) =~= tail + (seq![0xffu8] + rest));
        assert(spec_streams_ok(ss.skip(1))) by {
            assert(forall|j: int| 0 <= j < ss.skip(1).len() ==> ss.skip(1)[j] == ss[j + 1]);
        }
        assert(spec_streams_framable(ss.skip(1))) by {
            assert(forall|j: int| 0 <= j < ss.skip(1).len() ==> ss.skip(1)[j] == ss[j + 1]);
        }
        lemma_read_streams_of_wire(ss.skip(1), rest);
        assert(seq![spec_substream_payloads(sub0)] + spec_streams_payloads(ss.skip(1))
            =~= spec_streams_payloads(ss));
    }
}

/// Reads one sub-stream from `bytes` at `start`: its frame payloads in
/// order, and the position just past its end-of-stream sentinel.
pub fn read_substream(bytes: &[u8], start: usize) -> (r: Result<
    (Vec<Vec<u8>>, usize),
    BottleError,
>)
    requires
        start <= bytes@.len(),
    ensures
        match spec_read_substream(bytes@.skip(start as int)) {
            Ok((frames, c)) => r matches Ok(p) && p.0.deep_view() == frames && p.1 == start + c
                && start + c <= bytes@.len(),
            Err(e) => r == Err::<(Vec<Vec<u8>>, usize), BottleError>(e),
        },
{
    let mut acc: Vec<Vec<u8>> = Vec::new();
    let mut pos: usize = start;
    proof {
        lemma_read_substream_consumed(bytes@.skip(start as int));
        match spec_read_substream(bytes@.skip(start as int)) {
            Ok((fs, c)) => {
                assert(acc.deep_view() =~= Seq::<Seq<u8>>::empty());
                assert(Seq::<Seq<u8>>::empty() + fs =~= fs);
            },
            Err(_) => {},
        }
    }
    loop
        invariant
            start <= pos <= bytes@.len(),
            match spec_read_substream(bytes@.skip(pos as int)) {
                Ok((fs, c)) => match spec_read_substream(bytes@.skip(start as int)) {
                    Ok((fs0, c0)) => fs0 == acc.deep_view() + fs && c0 == pos - start + c && start
                        + c0 <= bytes@.len(),
                    Err(_) => false,
                },
                Err(e) => spec_read_substream(bytes@.skip(start as int)) == Err::<
                    (Seq<Seq<u8>>, int),
                    BottleError,
                >(e),
            },
        decreases bytes@.len() - pos,
    {
        proof {
            lemma_read_substream_consumed(bytes@.skip(pos as int));
        }
        match zint::read_length(bytes, pos) {
            Err(e) => {
                return Err(e);
            },
            Ok((DecodedLength::EndOfStream, np)) => {
                proof {
                    match zint::spec_read_length(bytes@.skip(pos as int)) {
                        Ok((v, c)) => {
                            assert(v == DecodedLength::EndOfStream);
                            assert(np == pos + c);
                        },
                        Err(_) => {
                            assert(false);
                        },
                    }
                    assert(spec_read_substream(bytes@.skip(pos as int)) == Ok::<
                        (Seq<Seq<u8>>, int),
                        BottleError,
                    >((Seq::empty(), (np - pos) as int)));
                    assert(acc.deep_view() + Seq::<Seq<u8>>::empty() =~= acc.deep_view());
                }
                return Ok((acc, np));
            },
            Ok((DecodedLength::EndOfAllStreams, _)) => {
                return Err(BottleError::TruncatedInput);
            },
            Ok((DecodedLength::Length(nlen), np)) => {
                if ((bytes.len() - np) as u64) < nlen {
                    return Err(BottleError::TruncatedInput);
                }
                let end = np + (nlen as usize);
                let mut frame: Vec<u8> = Vec::new();
                frame.extend_from_slice(&bytes[np..end]);
                let ghost accd = acc.deep_view();
                proof {
                    assert(frame@ =~= bytes@.subrange(np as int, end as int));
                    let sp = bytes@.skip(pos as int);
                    let c = np - pos;
                    assert(sp.subrange(c as int, c + nlen as int) =~= bytes@.subrange(
                        np as int,
                        end as int,
                    ));
                    assert(sp.skip(c + nlen as int) =~= bytes@.skip(end as int));
                    match spec_read_substream(bytes@.skip(end as int)) {
                        Ok((fs2, c2)) => {
                            assert((acc.deep_view().push(frame@)) + fs2 =~= acc.deep_view() + (seq![
                                frame@,
                            ] + fs2));
                        },
                        Err(_) => {},
                    }
                }
                acc.push(frame);
                proof {
                    assert(acc.deep_view() =~~= accd.push(frame@));
                }
                pos = end;
            },
        }
    }
}

/// Reads every sub-stream from `bytes` at `start`: the sub-streams in
/// order, and the position just past the end-of-all-streams sentinel.
pub fn read_streams(bytes: &[u8], start: usize) -> (r: Result<
    (Vec<Vec<Vec<u8>>>, usize),
    BottleError,
>)
    requires
        start <= bytes@.len(),
    ensures
        match spec_read_streams(bytes@.skip(start as int)) {
            Ok((streams, c)) => r matches Ok(p) && p.0.deep_view() == streams && p.1 == start + c
                && start + c <= bytes@.len(),
            Err(e) => r == Err::<(Vec<Vec<Vec<u8>>>, usize), BottleError>(e),
        },
{
    let mut acc: Vec<Vec<Vec<u8>>> = Vec::new();
    let mut pos: usize = start;
    proof {
        lemma_read_streams_consumed(bytes@.skip(start as int));
        match spec_read_streams(bytes@.skip(start as int)) {
            Ok((ss, c)) => {
                assert(acc.deep_view() =~= Seq::<Seq<Seq<u8>>>::empty());
                assert(Seq::<Seq<Seq<u8>>>::empty() + ss =~= ss);
            },
            Err(_) => {},
        }
    }
    loop
        invariant
            start <= pos <= bytes@.len(),
            match spec_read_streams(bytes@.skip(pos as int)) {
                Ok((ss, c)) => match spec_read_streams(bytes@.skip(start as int)) {
                    Ok((ss0, c0)) => ss0 == acc.deep_view() + ss && c0 == pos - start + c && start
                        + c0 <= bytes@.len(),
                    Err(_) => false,
                },
                Err(e) => spec_read_streams(bytes@.skip(start as int)) == Err::<
                    (Seq<Seq<Seq<u8>>>, int),
                    BottleError,
                >(e),
            },
        decreases bytes@.len() - pos,
    {
        proof {
            lemma_read_streams_consumed(bytes@.skip(pos as int));
        }
        match zint::read_length(bytes, pos) {
            Err(e) => {
                return Err(e);
            },
            Ok((DecodedLength::EndOfAllStreams, np)) => {
                proof {
                    match zint::spec_read_length(bytes@.skip(pos as int)) {
                        Ok((v, c)) => {
                            assert(v == DecodedLength::EndOfAllStreams);
                            assert(np == pos + c);
                        },
                        Err(_) => {
                            assert(false);
                        },
                    }
                    assert(spec_read_streams(bytes@.skip(pos as int)) == Ok::<
                        (Seq<Seq<Seq<u8>>>, int),
                        BottleError,
                    >((Seq::empty(), (np - pos) as int)));
                    assert(acc.deep_view() + Seq::<Seq<Seq<u8>>>::empty() =~= acc.deep_view());
                }
                return Ok((acc, np));
            },
            Ok(_) => {
                match read_substream(bytes, pos) {
                    Err(e) => {
                        return Err(e);
                    },
                    Ok((frames, np2)) => {
                        let ghost accd = acc.deep_view();
                        proof {
                            lemma_read_substream_consumed(bytes@.skip(pos as int));
                            match spec_read_streams(bytes@.skip(np2 as int)) {
                                Ok((ss2, c2)) => {
                                    assert((accd.push(frames.deep_view())) + ss2 =~= accd + (seq![
                                        frames.deep_view(),
                                    ] + ss2));
                                },
                                Err(_) => {},
                            }
                            assert(bytes@.skip(pos as int).skip((np2 - pos) as int) =~= bytes@.skip(
                                np2 as int,
                            ));
                        }
                        acc.push(frames);
                        proof {
                            assert(acc.deep_view() =~= accd.push(frames.deep_view()));
                        }
                        pos = np2;
                    },
                }
            },
        }
    }
}

} // verus!
