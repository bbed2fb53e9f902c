use bc_io::{
    digest, Block, ChainTip, Deserialize, Digest, Error, Layout, Serialize, BLOCK_SIZE,
    DIGEST_SIZE,
};

fn encode(b: &Block) -> Vec<u8> {
    let mut buf = vec![0u8; BLOCK_SIZE];
    b.serialize(&mut buf).unwrap();
    buf
}

/// A store with a size header whose genesis record is built from the first
/// word and whose other blocks are appended, one per remaining word.
fn build_store(words: &[&str]) -> (Layout, Vec<u8>, Vec<Block>) {
    let layout = Layout::new(BLOCK_SIZE).unwrap();
    let mut blocks: Vec<Block> = Vec::new();
    for w in words {
        blocks.push(Block::new(1_700_000_000, 123, 1, w.as_bytes()));
    }
    let mut image = layout.genesis(&blocks[0]).unwrap();
    let mut tip = ChainTip::open(layout, image.len() as u64, &image[4..]).unwrap();
    for b in &blocks[1..] {
        tip.append(&mut image, &encode(b)).unwrap();
    }
    (layout, image, blocks)
}

#[test]
fn scenario_six_blocks_hello_world() {
    let words = ["hello world", "this", "is", "the", "test", "data"];
    let (layout, image, blocks) = build_store(&words);
    assert_eq!(layout.block_size(), 96);
    assert_eq!(image.len(), 4 + 6 * 96);
    assert_eq!(layout.block_count(image.len() as u64), Ok(6));
    assert_eq!(layout.validate_all_blocks(&image), Ok(()));
    for i in 0..6u64 {
        assert_eq!(layout.validate_block_at(&image, i), Ok(()));
    }
    let data = layout.read_data_at(&image, 3).unwrap();
    let third = Block::deserialize(&data).unwrap();
    assert_eq!(third, blocks[3]);
    assert_eq!(third.data_size, 3);
    assert_eq!(third.merkle_root, digest(b"the"));
    let whole = layout.read_block_at(&image, 3).unwrap();
    assert_eq!(whole.len(), 96);
    assert_eq!(whole[DIGEST_SIZE..].to_vec(), data);
}

#[test]
fn scenario_corrupt_digest_field_is_reported() {
    let layout = Layout::new(64).unwrap();
    let zero = Block::deserialize(&[0u8; 64]).unwrap();
    let mut image = layout.genesis(&zero).unwrap();
    let mut tip = ChainTip::open(layout, image.len() as u64, &image[4..]).unwrap();
    tip.append(&mut image, &[0u8; 64]).unwrap();
    tip.append(&mut image, &[0u8; 64]).unwrap();
    assert_eq!(layout.validate_all_blocks(&image), Ok(()));
    image[4 + 96 + 5] ^= 0xff;
    assert_eq!(layout.validate_block_at(&image, 1), Err(Error::InvalidBlockHash(1)));
    assert_eq!(layout.validate_block_at(&image, 2), Err(Error::InvalidBlockHash(2)));
    assert_eq!(layout.validate_block_at(&image, 0), Ok(()));
    assert_eq!(layout.validate_all_blocks(&image), Err(Error::InvalidBlockHash(1)));
}

#[test]
fn corrupt_payload_breaks_the_next_link() {
    let (layout, mut image, _) = build_store(&["a", "b", "c", "d"]);
    image[4 + 2 * 96 + 40] ^= 1;
    assert_eq!(layout.validate_all_blocks(&image), Err(Error::InvalidBlockHash(3)));
    assert_eq!(layout.validate_block_at(&image, 2), Ok(()));
    assert_eq!(layout.validate_block_at(&image, 3), Err(Error::InvalidBlockHash(3)));
}

#[test]
fn each_block_records_the_digest_of_its_predecessor() {
    let (layout, image, _) = build_store(&["a", "b", "c"]);
    let blocks = &image[4..];
    for i in 1..3usize {
        let prev = &blocks[(i - 1) * 96..i * 96];
        let field = &blocks[i * 96..i * 96 + 32];
        assert_eq!(field.to_vec(), digest(prev).to_bytes());
    }
    assert_eq!(layout.validate_all_blocks(&image), Ok(()));
}

#[test]
fn genesis_follows_the_size_header_and_holds_the_initial_digest() {
    let layout = Layout::new(BLOCK_SIZE).unwrap();
    let b = Block::new(5, 6, 7, b"hello world");
    let g = layout.genesis(&b).unwrap();
    assert_eq!(g.len(), 4 + 96);
    assert_eq!(&g[0..4], &[96, 0, 0, 0]);
    assert_eq!(g[4..36].to_vec(), Digest::initial().to_bytes());
    assert_eq!(g[36..].to_vec(), encode(&b));
    assert_eq!(layout.header(), vec![96, 0, 0, 0]);
    let opened = Layout::of_store(&g[..4], g.len() as u64).unwrap();
    assert_eq!(opened.block_size(), 96);
    assert_eq!(opened.header_size(), 4);
    assert_eq!(layout.validate_all_blocks(&g), Ok(()));
    assert_eq!(layout.block_count(g.len() as u64), Ok(1));
}

#[test]
fn fixed_layout_has_no_header() {
    let layout = Layout::fixed(BLOCK_SIZE).unwrap();
    assert_eq!(layout.header_size(), 0);
    assert_eq!(layout.header(), Vec::<u8>::new());
    let b = Block::new(5, 6, 7, b"x");
    let mut image = layout.genesis(&b).unwrap();
    assert_eq!(image.len(), 96);
    assert_eq!(image[..32].to_vec(), Digest::initial().to_bytes());
    let mut tip = ChainTip::open(layout, 96, &image).unwrap();
    tip.append(&mut image, &encode(&b)).unwrap();
    assert_eq!(layout.block_count(image.len() as u64), Ok(2));
    assert_eq!(layout.validate_all_blocks(&image), Ok(()));
    assert_eq!(layout.read_block_at(&image, 1), Ok(image[96..].to_vec()));
    assert_eq!(layout.validate_size(288), Ok(()));
    assert_eq!(layout.offset_of(2), Ok(192));
    assert_eq!(layout.offset_of(u64::MAX / 96), Ok(u64::MAX / 96 * 96));
    assert_eq!(layout.offset_of(u64::MAX / 96 + 1), Err(Error::IntegerOverflow));
}

#[test]
fn genesis_rejects_a_payload_of_the_wrong_size() {
    let layout = Layout::new(32).unwrap();
    let b = Block::new(5, 6, 7, b"x");
    assert_eq!(layout.genesis(&b), Err(Error::InvalidSliceLength));
}

#[test]
fn layout_rejects_bad_payload_sizes() {
    assert!(matches!(Layout::new(0), Err(Error::ZeroBlockSize)));
    assert!(matches!(Layout::fixed(0), Err(Error::ZeroBlockSize)));
    assert!(matches!(
        Layout::new(u32::MAX as usize - 31),
        Err(Error::BlockSizeTooBig)
    ));
    let largest = Layout::new(u32::MAX as usize - 32).unwrap();
    assert_eq!(largest.block_size(), u32::MAX as usize);
    let l = Layout::new(1).unwrap();
    assert_eq!(l.block_size(), 33);
    assert_eq!(l.payload_size(), 1);
}

#[test]
fn layout_of_an_existing_store() {
    let (layout, image, _) = build_store(&["a", "b", "c"]);
    let l = Layout::of_store(&image[..4], image.len() as u64).unwrap();
    assert_eq!(l.block_size(), layout.block_size());
    assert!(matches!(Layout::of_store(&[], 0), Err(Error::FileIsEmpty)));
    assert!(matches!(Layout::of_store(&[96, 0], 2), Err(Error::InvalidFileSize)));
    assert!(matches!(Layout::of_store(&[96, 0], 100), Err(Error::InvalidSliceLength)));
    assert!(matches!(Layout::of_store(&[0, 0, 0, 0], 100), Err(Error::ZeroBlockSize)));
    assert!(matches!(Layout::of_store(&[96, 0, 0, 0], 4), Err(Error::FileIsEmpty)));
    assert!(matches!(Layout::of_store(&image[..4], 99), Err(Error::InvalidFileSize)));
    assert!(matches!(Layout::of_store(&image[..4], 101), Err(Error::InvalidFileSize)));
}

#[test]
fn too_small_declared_block_size() {
    // 16-byte blocks: a length that is not a whole number of them is a size error
    assert!(matches!(Layout::of_store(&[16, 0, 0, 0], 4 + 17), Err(Error::InvalidFileSize)));
    // a whole number of them still leaves no room for a payload
    assert!(matches!(Layout::of_store(&[16, 0, 0, 0], 4 + 32), Err(Error::ZeroBlockSize)));
    assert!(matches!(Layout::of_store(&[32, 0, 0, 0], 4 + 64), Err(Error::ZeroBlockSize)));
    assert!(matches!(Layout::of_store(&[32, 0, 0, 0], 4 + 65), Err(Error::InvalidFileSize)));
}

#[test]
fn size_checks() {
    let l = Layout::new(64).unwrap();
    assert_eq!(l.validate_size(0), Err(Error::FileIsEmpty));
    assert_eq!(l.validate_size(3), Err(Error::InvalidFileSize));
    assert_eq!(l.validate_size(4), Err(Error::FileIsEmpty));
    assert_eq!(l.validate_size(99), Err(Error::InvalidFileSize));
    assert_eq!(l.validate_size(101), Err(Error::InvalidFileSize));
    assert_eq!(l.validate_size(292), Ok(()));
    assert_eq!(l.block_count(0), Err(Error::FileIsEmpty));
    assert_eq!(l.block_count(100 + 4), Err(Error::InvalidFileSize));
    assert_eq!(l.block_count(292), Ok(3));
    assert_eq!(l.last_block_offset(292), Ok(196));
    assert_eq!(l.last_block_offset(0), Err(Error::FileIsEmpty));
    assert_eq!(l.last_block_offset(291), Err(Error::InvalidFileSize));
}

#[test]
fn offsets_and_positions() {
    let l = Layout::new(64).unwrap();
    assert_eq!(l.offset_of(0), Ok(4));
    assert_eq!(l.offset_of(2), Ok(196));
    assert_eq!(l.offset_of(u64::MAX), Err(Error::IntegerOverflow));
    assert_eq!(l.check_position(0), Err(Error::BadStreamPosition(0)));
    assert_eq!(l.check_position(4), Ok(4));
    assert_eq!(l.check_position(100), Ok(100));
    assert_eq!(l.check_position(192), Err(Error::BadStreamPosition(192)));
    assert_eq!(l.check_block_buffer(95), Err(Error::InvalidSliceLength));
    assert_eq!(l.check_block_buffer(96), Ok(()));
    assert_eq!(l.check_data_buffer(64), Ok(()));
    assert_eq!(l.check_data_buffer(96), Err(Error::InvalidSliceLength));
    assert_eq!(l.locate_block(2, 292), Ok(196));
    assert_eq!(l.locate_block(3, 292), Err(Error::BlockNumDoesNotExist));
    assert_eq!(l.locate_block(0, 0), Err(Error::FileIsEmpty));
    assert_eq!(l.locate_block(0, 99), Err(Error::InvalidFileSize));
}

#[test]
fn reads_are_bounds_checked() {
    let (layout, image, _) = build_store(&["a", "b"]);
    assert_eq!(layout.read_block_at(&[], 0), Err(Error::FileIsEmpty));
    assert_eq!(layout.read_block_at(&image[..101], 0), Err(Error::InvalidFileSize));
    assert_eq!(layout.read_block_at(&image, 2), Err(Error::BlockNumDoesNotExist));
    assert_eq!(layout.read_data_at(&image, 2), Err(Error::BlockNumDoesNotExist));
    assert_eq!(layout.read_block_at(&image, 1), Ok(image[100..].to_vec()));
    assert_eq!(layout.read_block_at(&image[..100], 0), Ok(image[4..100].to_vec()));
    assert_eq!(layout.validate_block_at(&image, 2), Err(Error::BlockNumDoesNotExist));
    assert_eq!(layout.validate_block_at(&[], 0), Err(Error::FileIsEmpty));
    assert_eq!(layout.validate_all_blocks(&[]), Err(Error::FileIsEmpty));
    assert_eq!(layout.validate_all_blocks(&image[..4]), Err(Error::FileIsEmpty));
    assert_eq!(layout.validate_all_blocks(&image[..101]), Err(Error::InvalidFileSize));
}

#[test]
fn tip_stamps_and_caches_the_last_digest() {
    let layout = Layout::new(64).unwrap();
    let genesis = vec![9u8; 96];
    assert!(matches!(ChainTip::new(layout, &genesis[..95]), Err(Error::InvalidSliceLength)));
    let mut tip = ChainTip::new(layout, &genesis).unwrap();
    assert_eq!(tip.last_hash(), digest(&genesis));
    assert_eq!(tip.layout().block_size(), 96);
    assert_eq!(tip.next_block(&[1u8; 63]), Err(Error::InvalidSliceLength));
    let block = tip.next_block(&[1u8; 64]).unwrap();
    assert_eq!(block[..32].to_vec(), digest(&genesis).to_bytes());
    assert_eq!(&block[32..], &[1u8; 64]);
    tip.commit(&block);
    assert_eq!(tip.last_hash(), digest(&block));
}

#[test]
fn tip_of_a_store_checks_its_size() {
    let layout = Layout::new(64).unwrap();
    let last = vec![3u8; 96];
    assert!(matches!(ChainTip::open(layout, 0, &last), Err(Error::FileIsEmpty)));
    assert!(matches!(ChainTip::open(layout, 4, &last), Err(Error::FileIsEmpty)));
    assert!(matches!(ChainTip::open(layout, 101, &last), Err(Error::InvalidFileSize)));
    assert!(matches!(ChainTip::open(layout, 100, &last[..95]), Err(Error::InvalidSliceLength)));
    let tip = ChainTip::open(layout, 196, &last).unwrap();
    assert_eq!(tip.last_hash(), digest(&last));
}

#[test]
fn append_of_a_wrong_size_payload_changes_nothing() {
    let layout = Layout::new(64).unwrap();
    let mut image = vec![0u8; 100];
    let mut tip = ChainTip::open(layout, 100, &image[4..]).unwrap();
    let before = tip.last_hash();
    assert_eq!(tip.append(&mut image, &[0u8; 65]), Err(Error::InvalidSliceLength));
    assert_eq!(image, vec![0u8; 100]);
    assert_eq!(tip.last_hash(), before);
    assert_eq!(tip.append(&mut image, &[0u8; 64]), Ok(()));
    assert_eq!(image.len(), 196);
    assert_eq!(tip.last_hash(), digest(&image[100..]));
}

#[test]
fn changed_genesis_digest_field_breaks_the_first_link() {
    let (layout, mut image, _) = build_store(&["a", "b", "c"]);
    image[4 + 7] ^= 0x10;
    assert_eq!(layout.validate_block_at(&image, 0), Ok(()));
    assert_eq!(layout.validate_all_blocks(&image), Err(Error::InvalidBlockHash(1)));
}

#[test]
fn link_span_and_pair_check() {
    let (layout, mut image, _) = build_store(&["a", "b", "c"]);
    let size = image.len() as u64;
    assert_eq!(layout.link_span(0, size), Ok(None));
    assert_eq!(layout.link_span(2, size), Ok(Some(100)));
    assert_eq!(layout.link_span(3, size), Err(Error::BlockNumDoesNotExist));
    assert_eq!(layout.link_span(1, 0), Err(Error::FileIsEmpty));
    assert_eq!(layout.link_span(1, size - 1), Err(Error::InvalidFileSize));
    assert_eq!(layout.check_link_pair(2, &image[100..292]), Ok(()));
    assert_eq!(layout.check_link_pair(2, &image[100..291]), Err(Error::InvalidSliceLength));
    assert_eq!(layout.check_link_pair(2, &image[4..]), Err(Error::InvalidSliceLength));
    image[150] ^= 1;
    assert_eq!(layout.check_link_pair(2, &image[100..292]), Err(Error::InvalidBlockHash(2)));
    assert_eq!(layout.check_link_pair(1, &image[4..196]), Ok(()));
}
