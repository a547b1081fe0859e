use rubble::table::format::{
    block_contents_from_decompressed, block_contents_raw, decode_block_trailer, BlockHandle,
    Footer, RawBlockPayload, ReadOptions, BLOCK_TRAILER_SIZE, ENCODED_LENGTH,
    MAX_ENCODED_LENGTH, TABLE_MAGIC_NUMBER,
};
use rubble::table::table::{decode_table_footer, filter_block_key, Table};
use rubble::errors::RubbleError;
use rubble::status::Status;
use rubble::comparator::LessThanComparator;
use rubble::table::block::{Block, OwnedBlock};
use rubble::table::block_builder::{BlockBuilder, Options};

#[test]
fn block_handle_round_trips() {
    let handle = BlockHandle { offset: 300, size: 987654321 };
    let mut buff: Vec<u8> = Vec::new();
    handle.encode_to(&mut buff);
    assert!(buff.len() <= MAX_ENCODED_LENGTH);
    let mut decoded = BlockHandle::new();
    let rest = decoded.decode_from(&buff).unwrap();
    assert!(rest.is_empty());
    assert_eq!(decoded.offset(), 300);
    assert_eq!(decoded.size, 987654321);
}

#[test]
fn block_handle_accessors() {
    let mut handle = BlockHandle::new();
    assert_eq!(handle.offset(), 0);
    handle.set_offset(42);
    assert_eq!(handle.offset(), 42);
    assert_eq!(handle.size, 0);
}

#[test]
fn block_handle_decode_rejects_truncation() {
    let handle = BlockHandle { offset: 1 << 40, size: 1 << 40 };
    let mut buff: Vec<u8> = Vec::new();
    handle.encode_to(&mut buff);
    let mut decoded = BlockHandle::new();
    assert!(decoded.decode_from(&buff[..buff.len() - 1]).is_err());
    // Failure leaves the handle as it was.
    assert_eq!(decoded.offset, 0);
    assert_eq!(decoded.size, 0);
}

fn sample_footer() -> Footer {
    let mut footer = Footer::new();
    footer.set_metaindex_handle(BlockHandle { offset: 1000, size: 200 });
    footer.set_index_handle(BlockHandle { offset: 1205, size: 543 });
    footer
}

#[test]
fn footer_round_trips_at_fixed_length() {
    let footer = sample_footer();
    let mut buff: Vec<u8> = Vec::new();
    footer.encode_to(&mut buff);
    assert_eq!(buff.len(), ENCODED_LENGTH);
    let mut decoded = Footer::new();
    let rest = decoded.decode_from(&buff).unwrap();
    assert!(rest.is_empty());
    assert_eq!(decoded.metaindex_handle().offset, 1000);
    assert_eq!(decoded.metaindex_handle().size, 200);
    assert_eq!(decoded.index_handle().offset, 1205);
    assert_eq!(decoded.index_handle().size, 543);
}

#[test]
fn footer_with_flipped_magic_is_a_corruption() {
    let footer = sample_footer();
    let mut buff: Vec<u8> = Vec::new();
    footer.encode_to(&mut buff);
    // Flip each magic byte in turn; every flip must be caught.
    for i in (ENCODED_LENGTH - 8)..ENCODED_LENGTH {
        let mut bad = buff.clone();
        bad[i] ^= 0xff;
        let mut decoded = Footer::new();
        let err = decoded.decode_from(&bad).unwrap_err();
        match err {
            RubbleError::Status(Status::Corruption(_)) => {},
            other => panic!("expected a corruption, got {:?}", other),
        }
        // Failure leaves the footer untouched.
        assert_eq!(decoded.metaindex_handle().offset, 0);
    }
}

#[test]
fn magic_constant_words() {
    assert_eq!(TABLE_MAGIC_NUMBER, 0xdb4775248b80fb57);
    let footer = sample_footer();
    let mut buff: Vec<u8> = Vec::new();
    footer.encode_to(&mut buff);
    // Low fixed32 word first, little-endian bytes.
    assert_eq!(&buff[ENCODED_LENGTH - 8..], &[0x57, 0xfb, 0x80, 0x8b, 0x24, 0x75, 0x47, 0xdb]);
}

#[test]
fn decode_table_footer_rejects_short_files() {
    let footer = sample_footer();
    let mut buff: Vec<u8> = Vec::new();
    footer.encode_to(&mut buff);
    let err = decode_table_footer(&buff, (ENCODED_LENGTH - 1) as u64).unwrap_err();
    match err {
        RubbleError::Status(Status::Corruption(_)) => {},
        other => panic!("expected a corruption, got {:?}", other),
    }
    let ok = decode_table_footer(&buff, 4096).unwrap();
    assert_eq!(ok.index_handle().offset, 1205);
}

#[test]
fn block_trailer_type_byte_decides() {
    let mut stored = b"payload".to_vec();
    stored.push(0);
    stored.extend_from_slice(&[0, 0, 0, 0]);
    assert_eq!(stored.len(), 7 + BLOCK_TRAILER_SIZE);
    match decode_block_trailer(&stored, 7).unwrap() {
        RawBlockPayload::Uncompressed(data) => assert_eq!(data, b"payload".to_vec()),
        RawBlockPayload::Snappy(_) => panic!("type byte zero is uncompressed"),
    }

    stored[7] = 1;
    match decode_block_trailer(&stored, 7).unwrap() {
        RawBlockPayload::Snappy(data) => assert_eq!(data, b"payload".to_vec()),
        RawBlockPayload::Uncompressed(_) => panic!("type byte one is compressed"),
    }

    stored[7] = 9;
    let err = decode_block_trailer(&stored, 7).unwrap_err();
    match err {
        RubbleError::Status(Status::Corruption(_)) => {},
        other => panic!("expected a corruption, got {:?}", other),
    }
}

#[test]
fn decompression_outcomes_map_to_contents() {
    let ok = block_contents_from_decompressed(Some(b"plain".to_vec())).unwrap();
    assert_eq!(ok.data, b"plain".to_vec());
    assert!(ok.cachable);
    let err = block_contents_from_decompressed(None).unwrap_err();
    match err {
        RubbleError::Status(Status::Corruption(_)) => {},
        other => panic!("expected a corruption, got {:?}", other),
    }
    let raw = block_contents_raw(b"as-is".to_vec());
    assert_eq!(raw.data, b"as-is".to_vec());
    assert!(raw.cachable);
}

#[test]
fn read_options_default_off() {
    let opt = ReadOptions::new();
    assert!(!opt.verify_checksums);
}

#[test]
fn table_holds_its_parts() {
    let footer = sample_footer();
    let index = block_contents_raw(b"index-bytes".to_vec());
    let table = Table::new(footer, index, Vec::new());
    assert_eq!(table.index_block().data, b"index-bytes".to_vec());
    assert_eq!(table.footer().index_handle().size, 543);
    assert!(table.filter_data.is_empty());
}

#[test]
fn filter_key_is_prefixed() {
    let key = filter_block_key("bloom");
    assert_eq!(key, "filter.bloom");
}

#[test]
fn status_descriptions() {
    assert_eq!(Status::Okay.description(), "no error");
    assert_eq!(Status::Corruption(String::from("bad entry")).description(), "bad entry");
    assert_eq!(Status::IOError(String::from("short read")).description(), "short read");
}

#[test]
fn a_whole_table_file_opens_from_its_parts() {
    // One data block of two entries.
    let opts = Options { block_restart_interval: 2, comparator: LessThanComparator };
    let mut builder = BlockBuilder::new(&opts);
    builder.add(b"alpha", b"1");
    builder.add(b"beta", b"2");
    let data_block = builder.finish();

    // The index block maps the last key to the data block's handle.
    let data_handle = BlockHandle { offset: 0, size: data_block.len() as u64 };
    let mut handle_bytes: Vec<u8> = Vec::new();
    data_handle.encode_to(&mut handle_bytes);
    builder.reset();
    builder.add(b"beta", &handle_bytes);
    let index_block = builder.finish();

    // Lay the file out: data block, trailer, index block, trailer, footer.
    let mut file: Vec<u8> = Vec::new();
    file.extend_from_slice(&data_block);
    file.push(0);
    file.extend_from_slice(&[0, 0, 0, 0]);
    let index_offset = file.len() as u64;
    file.extend_from_slice(&index_block);
    file.push(0);
    file.extend_from_slice(&[0, 0, 0, 0]);
    let mut footer = Footer::new();
    footer.set_metaindex_handle(BlockHandle { offset: index_offset, size: 0 });
    footer.set_index_handle(BlockHandle { offset: index_offset, size: index_block.len() as u64 });
    footer.encode_to(&mut file);

    // Open: decode the footer from the tail, resolve the index block,
    // then follow its handle to the data block.
    let footer_region = &file[file.len() - ENCODED_LENGTH..];
    let decoded = decode_table_footer(footer_region, file.len() as u64).unwrap();
    let ih = decoded.index_handle();
    let stored_index =
        &file[ih.offset as usize..(ih.offset + ih.size) as usize + BLOCK_TRAILER_SIZE];
    let index_payload = match decode_block_trailer(stored_index, ih.size as usize).unwrap() {
        RawBlockPayload::Uncompressed(data) => data,
        RawBlockPayload::Snappy(_) => panic!("the index block is stored raw"),
    };
    let index = OwnedBlock::new(&index_payload).unwrap();
    let mut index_iter = index.iter(LessThanComparator);
    index_iter.seek(b"beta");
    assert!(index_iter.is_valid());
    let mut dh = BlockHandle::new();
    index_iter.value();
    dh.decode_from(index_iter.value()).unwrap();
    assert_eq!(dh.offset, 0);
    assert_eq!(dh.size, data_block.len() as u64);

    let stored_data = &file[dh.offset as usize..(dh.offset + dh.size) as usize + BLOCK_TRAILER_SIZE];
    let data_payload = match decode_block_trailer(stored_data, dh.size as usize).unwrap() {
        RawBlockPayload::Uncompressed(data) => data,
        RawBlockPayload::Snappy(_) => panic!("the data block is stored raw"),
    };
    let data = OwnedBlock::new(&data_payload).unwrap();
    let mut it = data.iter(LessThanComparator);
    it.seek(b"beta");
    assert!(it.is_valid());
    assert_eq!(it.key(), b"beta".to_vec());
    assert_eq!(it.value(), b"2");
}
