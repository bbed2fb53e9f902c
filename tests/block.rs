use bc_io::{digest, Block, Deserialize, Error, Serialize, BLOCK_SIZE};

fn sample() -> Block {
    Block::new(-1_650_000_000, 123, 1, b"hello world")
}

#[test]
fn record_of_data_holds_its_size_and_digest() {
    let b = sample();
    assert_eq!(b.timestamp, -1_650_000_000);
    assert_eq!(b.user_id, 123);
    assert_eq!(b.version, 1);
    assert_eq!(b.data_size, 11);
    assert_eq!(b.merkle_root, digest(b"hello world"));
}

#[test]
fn record_keeps_the_given_timestamp() {
    let b = Block::new(1_650_000_000, 7, 2, b"this");
    assert_eq!(b.timestamp, 1_650_000_000);
    assert_eq!(b.user_id, 7);
    assert_eq!(b.version, 2);
    assert_eq!(b.data_size, 4);
    assert_eq!(b.merkle_root, digest(b"this"));
}

#[test]
fn record_encoding_layout_is_little_endian() {
    let b = Block::new(1, 0x0102, 3, b"");
    let mut buf = [0u8; 64];
    assert_eq!(b.serialize(&mut buf), Ok(()));
    assert_eq!(&buf[0..8], &[1, 0, 0, 0, 0, 0, 0, 0]);
    assert_eq!(&buf[8..16], &[0x02, 0x01, 0, 0, 0, 0, 0, 0]);
    assert_eq!(&buf[16..24], &[3, 0, 0, 0, 0, 0, 0, 0]);
    assert_eq!(&buf[24..32], &[0u8; 8]);
    assert_eq!(buf[32..64].to_vec(), digest(b"").to_bytes());
}

#[test]
fn record_round_trip_gives_the_record_back() {
    let b = sample();
    let mut buf = vec![0u8; BLOCK_SIZE];
    assert_eq!(b.serialize(&mut buf), Ok(()));
    assert_eq!(Block::deserialize(&buf), Ok(b));
}

#[test]
fn record_round_trip_with_extreme_values() {
    let b = Block::new(i64::MIN, u64::MAX, 0, b"edge");
    let mut buf = [0u8; 64];
    b.serialize(&mut buf).unwrap();
    let back = Block::deserialize(&buf).unwrap();
    assert_eq!(back, b);
    assert_eq!(back.timestamp, i64::MIN);
    assert_eq!(back.user_id, u64::MAX);
    assert_eq!(back.version, 0);
    assert_eq!(back.merkle_root, digest(b"edge"));
}

#[test]
fn record_codec_rejects_wrong_buffer_lengths() {
    let b = sample();
    let mut short = [0u8; 63];
    assert_eq!(b.serialize(&mut short), Err(Error::InvalidSliceLength));
    let mut long = [0u8; 96];
    assert_eq!(b.serialize(&mut long), Err(Error::InvalidSliceLength));
    assert_eq!(Block::deserialize(&[0u8; 63]), Err(Error::InvalidSliceLength));
    assert_eq!(Block::deserialize(&[0u8; 96]), Err(Error::InvalidSliceLength));
    assert_ne!(b, Block::new(0, 123, 1, b"hello world"));
}
