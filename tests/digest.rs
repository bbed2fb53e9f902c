use bc_io::{digest, Deserialize, Digest, Error, Serialize, DIGEST_SIZE};

#[test]
fn digest_of_empty_input_is_the_published_value() {
    let d = digest(b"");
    assert_eq!(
        d.to_hex(),
        "e3b0c44298fc1c149afbf4c8996fb92427ae41e4649b934ca495991b7852b855"
    );
}

#[test]
fn digest_of_abc_is_the_published_value() {
    let d = digest(b"abc");
    assert_eq!(
        d.to_hex(),
        "ba7816bf8f01cfea414140de5dae2223b00361a396177a9cb410ff61f20015ad"
    );
}

#[test]
fn digest_of_a_message_that_needs_two_padding_blocks() {
    let d = digest(b"abcdbcdecdefdefgefghfghighijhijkijkljklmklmnlmnomnopnopq");
    assert_eq!(
        d.to_hex(),
        "248d6a61d20638b8e5c026930c3e6039a33ce45964ff2167f6ecedd419db06c1"
    );
}

#[test]
fn digest_of_a_million_a() {
    let data = vec![b'a'; 1_000_000];
    assert_eq!(
        digest(&data).to_hex(),
        "cdc76e5c9914fb9281a1c7e284d73e67f1809a48a497200e046d39ccc7112cd0"
    );
}

#[test]
fn digest_of_exactly_one_block_of_input() {
    let data = vec![0u8; 64];
    assert_eq!(
        digest(&data).to_hex(),
        "f5a5fd42d16a20302798ef6ed309979b43003d2320d9f0e8ea9831a92759fb4b"
    );
}

#[test]
fn digest_is_deterministic_and_tells_inputs_apart() {
    let a = digest(b"hello world");
    let b = digest(b"hello world");
    let c = digest(b"hello world!");
    assert_eq!(a, b);
    assert_ne!(a, c);
}

#[test]
fn initial_digest_holds_the_initial_hash_value() {
    assert_eq!(
        Digest::initial().to_hex(),
        "6a09e667bb67ae853c6ef372a54ff53a510e527f9b05688c1f83d9ab5be0cd19"
    );
}

#[test]
fn hex_round_trip_gives_the_digest_back() {
    let d = digest(b"abc");
    let text = d.to_hex();
    assert_eq!(text.len(), 64);
    assert_eq!(Digest::from_hex(&text), Ok(d));
}

#[test]
fn from_hex_takes_a_prefix_and_upper_case() {
    let d = digest(b"abc");
    let text = "0xBA7816BF8F01CFEA414140DE5DAE2223B00361A396177A9CB410FF61F20015AD";
    assert_eq!(Digest::from_hex(text), Ok(d));
}

#[test]
fn hex_round_trip_in_upper_case_and_with_prefix() {
    let d = digest(b"hello world");
    let upper = d.to_hex().to_uppercase();
    assert_eq!(Digest::from_hex(&upper), Ok(d));
    assert_eq!(Digest::from_hex(&format!("0x{}", upper)), Ok(d));
    assert_eq!(Digest::from_hex(&format!("0x{}", d.to_hex())), Ok(d));
}

#[test]
fn from_hex_rejects_wrong_lengths() {
    assert_eq!(Digest::from_hex(""), Err(Error::InvalidHexLength));
    assert_eq!(Digest::from_hex("0x"), Err(Error::InvalidHexLength));
    let short = "ba7816bf8f01cfea414140de5dae2223b00361a396177a9cb410ff61f20015a";
    assert_eq!(Digest::from_hex(short), Err(Error::InvalidHexLength));
    let long = "ba7816bf8f01cfea414140de5dae2223b00361a396177a9cb410ff61f20015ad0";
    assert_eq!(Digest::from_hex(long), Err(Error::InvalidHexLength));
}

#[test]
fn from_hex_rejects_non_hex_characters() {
    let bad = "ga7816bf8f01cfea414140de5dae2223b00361a396177a9cb410ff61f20015ad";
    assert_eq!(Digest::from_hex(bad), Err(Error::InvalidHexDigit));
    let prefix_inside = "0x0x7816bf8f01cfea414140de5dae2223b00361a396177a9cb410ff61f20015ad";
    assert_eq!(Digest::from_hex(prefix_inside), Err(Error::InvalidHexDigit));
}

#[test]
fn digest_bytes_are_big_endian_words() {
    let d = digest(b"abc");
    let bytes = d.to_bytes();
    assert_eq!(bytes.len(), DIGEST_SIZE);
    assert_eq!(&bytes[0..4], &[0xba, 0x78, 0x16, 0xbf]);
    assert_eq!(&bytes[28..32], &[0xf2, 0x00, 0x15, 0xad]);
}

#[test]
fn digest_serialize_and_deserialize_round_trip() {
    let d = digest(b"round trip");
    let mut buf = [0u8; 32];
    assert_eq!(d.serialize(&mut buf), Ok(()));
    assert_eq!(buf.to_vec(), d.to_bytes());
    assert_eq!(Digest::deserialize(&buf), Ok(d));
}

#[test]
fn digest_codec_rejects_wrong_buffer_lengths() {
    let d = digest(b"x");
    let mut short = [7u8; 31];
    assert_eq!(d.serialize(&mut short), Err(Error::InvalidSliceLength));
    assert_eq!(short, [7u8; 31]);
    let mut long = [0u8; 33];
    assert_eq!(d.serialize(&mut long), Err(Error::InvalidSliceLength));
    assert_eq!(Digest::deserialize(&[0u8; 31]), Err(Error::InvalidSliceLength));
    assert_eq!(Digest::deserialize(&[0u8; 33]), Err(Error::InvalidSliceLength));
}
