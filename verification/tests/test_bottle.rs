use lib4bottle::bottle::check_magic;
use lib4bottle::bottle::flatten_stream;
use lib4bottle::bottle::read_bottle;
use lib4bottle::framing::frame_chunk_group;
use lib4bottle::framing::framed_vec_stream;
use lib4bottle::framing::read_streams;
use lib4bottle::framing::read_substream;
use lib4bottle::BottleError;
use lib4bottle::BottleType;

const MAGIC: [u8; 4] = [0xf0, 0x9f, 0x8d, 0xbc];

fn preamble(type_code: u8, header_len: usize) -> Vec<u8> {
    let mut v = MAGIC.to_vec();
    v.push(0);
    v.push(0);
    v.push((type_code << 4) | ((header_len >> 8) & 0x0f) as u8);
    v.push((header_len & 0xff) as u8);
    v
}

#[test]
fn decode_bottle_type_values() {
    assert_eq!(lib4bottle::decode_bottle_type(0), Ok(BottleType::File));
    assert_eq!(lib4bottle::decode_bottle_type(1), Ok(BottleType::Hashed));
    assert_eq!(lib4bottle::decode_bottle_type(3), Ok(BottleType::Encrypted));
    assert_eq!(lib4bottle::decode_bottle_type(4), Ok(BottleType::Compressed));
    assert_eq!(lib4bottle::decode_bottle_type(10), Ok(BottleType::Test));
    assert_eq!(lib4bottle::decode_bottle_type(11), Ok(BottleType::Test2));
    assert_eq!(lib4bottle::decode_bottle_type(2), Err(BottleError::UnknownBottleType(2)));
    assert_eq!(lib4bottle::decode_bottle_type(7), Err(BottleError::UnknownBottleType(7)));
    assert_eq!(lib4bottle::decode_bottle_type(15), Err(BottleError::UnknownBottleType(15)));
}

#[test]
fn make_header_stream_layout() {
    let header: Vec<u8> = vec![7; 300];
    let hs = lib4bottle::make_header_stream(BottleType::Test, &header).unwrap();
    assert_eq!(hs.len(), 3);
    assert_eq!(hs[0], MAGIC.to_vec());
    assert_eq!(hs[1], vec![0x00, 0x00, 0xa1, 0x2c]);
    assert_eq!(hs[2], header);
}

#[test]
fn make_header_stream_too_large() {
    let header: Vec<u8> = vec![0; 4096];
    assert_eq!(
        lib4bottle::make_header_stream(BottleType::File, &header),
        Err(BottleError::HeaderTooLarge)
    );
    let header: Vec<u8> = vec![0; 4095];
    assert!(lib4bottle::make_header_stream(BottleType::File, &header).is_ok());
}

#[test]
fn check_magic_round_trip() {
    let bytes = preamble(4, 0x0123);
    let (t, hl) = check_magic(&bytes).unwrap();
    assert_eq!(t, BottleType::Compressed);
    assert_eq!(hl, 0x0123);
}

#[test]
fn check_magic_bad_magic() {
    let mut bytes = preamble(0, 0);
    bytes[1] = 0x9e;
    assert_eq!(check_magic(&bytes), Err(BottleError::BadMagic));
    // four wrong bytes are enough to detect the mismatch: no more are needed
    assert_eq!(check_magic(&[1, 2, 3, 4]), Err(BottleError::BadMagic));
}

#[test]
fn check_magic_truncated() {
    assert_eq!(check_magic(&MAGIC[0..2]), Err(BottleError::TruncatedInput));
    assert_eq!(check_magic(&preamble(0, 0)[0..6]), Err(BottleError::TruncatedInput));
}

#[test]
fn check_magic_bad_version() {
    let mut bytes = preamble(0, 0);
    bytes[4] = 1;
    assert_eq!(check_magic(&bytes), Err(BottleError::BadVersion(1, 0)));
    let mut bytes = preamble(0, 0);
    bytes[5] = 9;
    assert_eq!(check_magic(&bytes), Err(BottleError::BadVersion(0, 9)));
}

#[test]
fn check_magic_unknown_type() {
    let bytes = preamble(2, 0);
    assert_eq!(check_magic(&bytes), Err(BottleError::UnknownBottleType(2)));
}

#[test]
fn read_header_round_trip() {
    let header: Vec<u8> = b"some header bytes".to_vec();
    let hs = lib4bottle::make_header_stream(BottleType::Hashed, &header).unwrap();
    let mut wire: Vec<u8> = Vec::new();
    for buf in &hs {
        wire.extend_from_slice(buf);
    }
    wire.extend_from_slice(b"trailing");
    let (t, body, consumed) = lib4bottle::read_header(&wire).unwrap();
    assert_eq!(t, BottleType::Hashed);
    assert_eq!(body, header);
    assert_eq!(consumed, 8 + header.len());
}

#[test]
fn read_header_truncated_body() {
    let header: Vec<u8> = vec![1, 2, 3, 4];
    let hs = lib4bottle::make_header_stream(BottleType::File, &header).unwrap();
    let mut wire: Vec<u8> = Vec::new();
    for buf in &hs {
        wire.extend_from_slice(buf);
    }
    wire.truncate(10);
    assert_eq!(lib4bottle::read_header(&wire), Err(BottleError::TruncatedInput));
}

#[test]
fn frame_chunk_group_prefixes_length() {
    let group: Vec<Vec<u8>> = vec![b"ab".to_vec(), b"cde".to_vec()];
    let framed = frame_chunk_group(&group).unwrap();
    assert_eq!(framed, vec![vec![0x05], b"ab".to_vec(), b"cde".to_vec()]);
}

#[test]
fn framed_vec_stream_appends_terminator() {
    let stream: Vec<Vec<Vec<u8>>> = vec![vec![b"hello".to_vec()], vec![b"!".to_vec()]];
    let framed = framed_vec_stream(&stream).unwrap();
    assert_eq!(
        framed,
        vec![
            vec![vec![0x05], b"hello".to_vec()],
            vec![vec![0x01], b"!".to_vec()],
            vec![vec![0x00]],
        ]
    );
}

#[test]
fn read_substream_walks_frames() {
    let wire: Vec<u8> = vec![0x02, b'h', b'i', 0x01, b'!', 0x00, 0xff];
    let (frames, pos) = read_substream(&wire, 0).unwrap();
    assert_eq!(frames, vec![b"hi".to_vec(), b"!".to_vec()]);
    assert_eq!(pos, 6);
}

#[test]
fn read_substream_rejects_bottle_end_inside_stream() {
    let wire: Vec<u8> = vec![0x02, b'h', b'i', 0xff];
    assert_eq!(read_substream(&wire, 0), Err(BottleError::TruncatedInput));
}

#[test]
fn read_substream_truncated_frame() {
    let wire: Vec<u8> = vec![0x05, b'a'];
    assert_eq!(read_substream(&wire, 0), Err(BottleError::TruncatedInput));
}

#[test]
fn read_streams_walks_substreams() {
    let wire: Vec<u8> = vec![0x02, b'h', b'i', 0x00, 0x01, b'!', 0x00, 0xff, 9, 9];
    let (streams, pos) = read_streams(&wire, 0).unwrap();
    assert_eq!(streams, vec![vec![b"hi".to_vec()], vec![b"!".to_vec()]]);
    assert_eq!(pos, 8);
}

#[test]
fn empty_bottle_wire_bytes() {
    // a File bottle with an empty header and one empty sub-stream
    let header: Vec<u8> = Vec::new();
    let streams: Vec<Vec<Vec<Vec<u8>>>> = vec![Vec::new()];
    let items = lib4bottle::make_bottle(BottleType::File, &header, &streams).unwrap();
    let wire = flatten_stream(&items);
    assert_eq!(wire, vec![0xf0, 0x9f, 0x8d, 0xbc, 0x00, 0x00, 0x00, 0x00, 0x00, 0xff]);
}

#[test]
fn empty_bottle_round_trip() {
    let header: Vec<u8> = Vec::new();
    let streams: Vec<Vec<Vec<Vec<u8>>>> = vec![Vec::new()];
    let items = lib4bottle::make_bottle(BottleType::File, &header, &streams).unwrap();
    let wire = flatten_stream(&items);
    let (t, body, payloads) = read_bottle(&wire).unwrap();
    assert_eq!(t, BottleType::File);
    assert_eq!(body, Vec::<u8>::new());
    assert_eq!(payloads, vec![Vec::<Vec<u8>>::new()]);
}

#[test]
fn full_bottle_round_trip() {
    let header: Vec<u8> = b"meta".to_vec();
    let streams: Vec<Vec<Vec<Vec<u8>>>> = vec![
        vec![vec![b"hello".to_vec()], vec![b" ".to_vec(), b"world".to_vec()]],
        vec![vec![b"ab".to_vec(), b"cd".to_vec()]],
    ];
    let items = lib4bottle::make_bottle(BottleType::Test2, &header, &streams).unwrap();
    let wire = flatten_stream(&items);
    let (t, body, payloads) = read_bottle(&wire).unwrap();
    assert_eq!(t, BottleType::Test2);
    assert_eq!(body, b"meta".to_vec());
    assert_eq!(
        payloads,
        vec![vec![b"hello".to_vec(), b" world".to_vec()], vec![b"abcd".to_vec()]]
    );
}

#[test]
fn make_bottle_header_too_large() {
    let header: Vec<u8> = vec![0; 5000];
    let streams: Vec<Vec<Vec<Vec<u8>>>> = Vec::new();
    assert_eq!(
        lib4bottle::make_bottle(BottleType::File, &header, &streams),
        Err(BottleError::HeaderTooLarge)
    );
}

#[test]
fn read_bottle_bad_magic() {
    let wire: Vec<u8> = vec![b'n', b'o', b'p', b'e', 0, 0, 0, 0, 0xff];
    assert_eq!(read_bottle(&wire), Err(BottleError::BadMagic));
}

#[test]
fn read_bottle_missing_terminator() {
    let header: Vec<u8> = Vec::new();
    let streams: Vec<Vec<Vec<Vec<u8>>>> = Vec::new();
    let items = lib4bottle::make_bottle(BottleType::File, &header, &streams).unwrap();
    let mut wire = flatten_stream(&items);
    wire.pop();
    assert_eq!(read_bottle(&wire), Err(BottleError::TruncatedInput));
}
