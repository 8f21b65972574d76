use lib4bottle::zint::DecodedLength;
use lib4bottle::BottleError;

fn to_hex(bytes: &[u8]) -> String {
    let mut s = String::new();
    for b in bytes {
        s.push_str(&format!("{:02x}", b));
    }
    s
}

fn from_hex(s: &str) -> Vec<u8> {
    let digits: Vec<u32> = s.chars().map(|c| c.to_digit(16).unwrap()).collect();
    let mut out = Vec::new();
    let mut i = 0;
    while i < digits.len() {
        out.push((digits[i] * 16 + digits[i + 1]) as u8);
        i += 2;
    }
    out
}

#[test]
fn encode_packed_int() {
    assert_eq!(to_hex(&lib4bottle::encode_packed_int(0)), "00");
    assert_eq!(to_hex(&lib4bottle::encode_packed_int(100)), "64");
    assert_eq!(to_hex(&lib4bottle::encode_packed_int(129)), "81");
    assert_eq!(to_hex(&lib4bottle::encode_packed_int(127)), "7f");
    assert_eq!(to_hex(&lib4bottle::encode_packed_int(256)), "0001");
    assert_eq!(to_hex(&lib4bottle::encode_packed_int(987654321)), "b168de3a");
}

#[test]
fn decode_packed_int() {
    assert_eq!(lib4bottle::decode_packed_int(&from_hex("00")), 0);
    assert_eq!(lib4bottle::decode_packed_int(&from_hex("0a")), 10);
    assert_eq!(lib4bottle::decode_packed_int(&from_hex("ff")), 255);
    assert_eq!(lib4bottle::decode_packed_int(&from_hex("64")), 100);
    assert_eq!(lib4bottle::decode_packed_int(&from_hex("81")), 129);
    assert_eq!(lib4bottle::decode_packed_int(&from_hex("7f")), 127);
    assert_eq!(lib4bottle::decode_packed_int(&from_hex("0001")), 256);
    assert_eq!(lib4bottle::decode_packed_int(&from_hex("b168de3a")), 987654321);
}

#[test]
fn packed_round_trip() {
    let values: [u64; 9] = [0, 1, 255, 256, 65535, 65536, 1 << 32, 987654321, u64::MAX];
    for n in values {
        let enc = lib4bottle::encode_packed_int(n);
        assert!(enc.len() >= 1 && enc.len() <= 8);
        assert_eq!(lib4bottle::decode_packed_int(&enc), n);
    }
    // an exhausted source before the first byte decodes to zero
    assert_eq!(lib4bottle::decode_packed_int(&[]), 0);
}

#[test]
fn encode_length_values() {
    assert_eq!(to_hex(&lib4bottle::encode_length(0).unwrap()), "00");
    assert_eq!(to_hex(&lib4bottle::encode_length(1).unwrap()), "01");
    assert_eq!(to_hex(&lib4bottle::encode_length(100).unwrap()), "64");
    assert_eq!(to_hex(&lib4bottle::encode_length(127).unwrap()), "7f");
    assert_eq!(to_hex(&lib4bottle::encode_length(129).unwrap()), "8102");
    assert_eq!(to_hex(&lib4bottle::encode_length(256).unwrap()), "f1");
    assert_eq!(to_hex(&lib4bottle::encode_length(1024).unwrap()), "f3");
    assert_eq!(to_hex(&lib4bottle::encode_length(12345).unwrap()), "d98101");
    assert_eq!(to_hex(&lib4bottle::encode_length(3998778).unwrap()), "ea43d003");
    assert_eq!(to_hex(&lib4bottle::encode_length(87654321).unwrap()), "e1fb9753");
    assert_eq!(to_hex(&lib4bottle::encode_length(1 << 21).unwrap()), "fe");
}

#[test]
fn encode_length_power_of_two_is_one_byte() {
    for log in 7..=21u32 {
        let n = 1u64 << log;
        let enc = lib4bottle::encode_length(n).unwrap();
        assert_eq!(enc.len(), 1);
        assert_eq!(enc[0], 0xf0 + (log as u8 - 7));
    }
}

#[test]
fn encode_length_overflow() {
    assert_eq!(lib4bottle::encode_length(1 << 28), Err(BottleError::LengthOverflow));
    assert_eq!(lib4bottle::encode_length((1 << 28) + 5), Err(BottleError::LengthOverflow));
    assert_eq!(lib4bottle::encode_length(u64::MAX), Err(BottleError::LengthOverflow));
    assert!(lib4bottle::encode_length((1 << 28) - 1).is_ok());
}

#[test]
fn encode_length_never_emits_sentinels() {
    let samples: [u64; 12] =
        [1, 2, 127, 128, 129, 4095, 8191, 8192, 1 << 21, (1 << 22), 87654321, (1 << 28) - 1];
    for n in samples {
        let enc = lib4bottle::encode_length(n).unwrap();
        assert_ne!(enc[0], 0xff);
        assert_ne!(enc[0], 0x00);
    }
}

#[test]
fn decode_length_values() {
    let decode = |h: &str| lib4bottle::zint::decode_length(&from_hex(h)).unwrap();
    assert_eq!(decode("00"), DecodedLength::EndOfStream);
    assert_eq!(decode("ff"), DecodedLength::EndOfAllStreams);
    assert_eq!(decode("01"), DecodedLength::Length(1));
    assert_eq!(decode("64"), DecodedLength::Length(100));
    assert_eq!(decode("7f"), DecodedLength::Length(127));
    assert_eq!(decode("8102"), DecodedLength::Length(129));
    assert_eq!(decode("f1"), DecodedLength::Length(256));
    assert_eq!(decode("f3"), DecodedLength::Length(1024));
    assert_eq!(decode("d98101"), DecodedLength::Length(12345));
    assert_eq!(decode("ea43d003"), DecodedLength::Length(3998778));
    assert_eq!(decode("e1fb9753"), DecodedLength::Length(87654321));
    assert_eq!(decode("fe"), DecodedLength::Length(1 << 21));
}

#[test]
fn decode_length_ignores_trailing_bytes() {
    let decoded = lib4bottle::zint::decode_length(&from_hex("8102deadbeef")).unwrap();
    assert_eq!(decoded, DecodedLength::Length(129));
}

#[test]
fn decode_length_truncated() {
    assert_eq!(lib4bottle::zint::decode_length(&[]), Err(BottleError::TruncatedInput));
    assert_eq!(lib4bottle::zint::decode_length(&[0x81]), Err(BottleError::TruncatedInput));
    assert_eq!(lib4bottle::zint::decode_length(&[0xd9, 0x81]), Err(BottleError::TruncatedInput));
    assert_eq!(
        lib4bottle::zint::decode_length(&[0xea, 0x43, 0xd0]),
        Err(BottleError::TruncatedInput)
    );
}

#[test]
fn length_round_trip() {
    let samples: [u64; 14] =
        [0, 1, 127, 128, 129, 256, 1024, 4095, 8191, 8192, 12345, 1 << 21, (1 << 22) + 7, (1 << 28)
            - 1];
    for n in samples {
        let enc = lib4bottle::encode_length(n).unwrap();
        let decoded = lib4bottle::zint::decode_length(&enc).unwrap();
        if n == 0 {
            assert_eq!(decoded, DecodedLength::EndOfStream);
        } else {
            assert_eq!(decoded, DecodedLength::Length(n));
        }
    }
}

#[test]
fn length_of_length_values() {
    assert_eq!(lib4bottle::zint::length_of_length(0x00), 1);
    assert_eq!(lib4bottle::zint::length_of_length(0x01), 1);
    assert_eq!(lib4bottle::zint::length_of_length(0x64), 1);
    assert_eq!(lib4bottle::zint::length_of_length(0x7f), 1);
    assert_eq!(lib4bottle::zint::length_of_length(0x81), 2);
    assert_eq!(lib4bottle::zint::length_of_length(0xd9), 3);
    assert_eq!(lib4bottle::zint::length_of_length(0xea), 4);
    assert_eq!(lib4bottle::zint::length_of_length(0xf1), 1);
    assert_eq!(lib4bottle::zint::length_of_length(0xf3), 1);
    assert_eq!(lib4bottle::zint::length_of_length(0xfe), 1);
    assert_eq!(lib4bottle::zint::length_of_length(0xff), 1);
}

#[test]
fn log_base2_values() {
    assert_eq!(lib4bottle::log_base2(1), 0);
    assert_eq!(lib4bottle::log_base2(2), 1);
    assert_eq!(lib4bottle::log_base2(128), 7);
    assert_eq!(lib4bottle::log_base2(1024), 10);
    assert_eq!(lib4bottle::log_base2(1 << 21), 21);
    assert_eq!(lib4bottle::log_base2(u64::MAX), 63);
}
