use rubble::comparator::LessThanComparator;
use rubble::table::block::{iter_slice, num_restarts, Block, OwnedBlock, SliceBlock};
use rubble::table::block_builder::{BlockBuilder, Options};
use rubble::util::coding::decode_fixed32;

fn options(interval: usize) -> Options<LessThanComparator> {
    Options { block_restart_interval: interval, comparator: LessThanComparator }
}

fn build_block(pairs: &[(&[u8], &[u8])], interval: usize) -> Vec<u8> {
    let opts = options(interval);
    let mut builder = BlockBuilder::new(&opts);
    for (k, v) in pairs {
        builder.add(k, v);
    }
    builder.finish()
}

fn sample_pairs() -> Vec<(Vec<u8>, Vec<u8>)> {
    vec![
        (b"a".to_vec(), b"1".to_vec()),
        (b"ab".to_vec(), b"2".to_vec()),
        (b"b".to_vec(), b"3".to_vec()),
    ]
}

fn build_sample(interval: usize) -> Vec<u8> {
    let pairs = sample_pairs();
    let refs: Vec<(&[u8], &[u8])> =
        pairs.iter().map(|(k, v)| (k.as_slice(), v.as_slice())).collect();
    build_block(&refs, interval)
}

#[test]
fn round_trip_recovers_every_pair() {
    for interval in 1..5usize {
        let block = build_sample(interval);
        let owned = OwnedBlock::new(&block).unwrap();
        let mut it = owned.iter(LessThanComparator);
        let mut seen: Vec<(Vec<u8>, Vec<u8>)> = Vec::new();
        it.seek_to_first();
        while it.is_valid() {
            seen.push((it.key(), it.value().to_vec()));
            it.step();
        }
        assert_eq!(seen, sample_pairs());
        assert!(matches!(it.status(), rubble::status::Status::Okay));
    }
}

#[test]
fn restart_interval_one_restarts_every_entry() {
    let block = build_sample(1);
    // The trailer count equals the entry count.
    assert_eq!(num_restarts(&block), 3);
    // Every entry stores its full key: each header begins with a zero
    // shared length at each restart offset.
    let restart_base = block.len() - 4 * 4;
    for j in 0..3usize {
        let off = decode_fixed32(&block[restart_base + 4 * j..]) as usize;
        assert_eq!(block[off], 0, "restart entry must share nothing");
    }
}

#[test]
fn restart_points_every_two_entries() {
    let block = build_sample(2);
    assert_eq!(num_restarts(&block), 2);
    let restart_base = block.len() - 4 * 3;
    let r0 = decode_fixed32(&block[restart_base..]);
    let r1 = decode_fixed32(&block[restart_base + 4..]);
    assert_eq!(r0, 0);
    // "a" costs 5 bytes, the compressed "ab" another 5: "b" restarts at 10.
    assert_eq!(r1, 10);
}

#[test]
fn seek_lands_on_present_and_following_keys() {
    let block = build_sample(2);
    let slice_block = SliceBlock::new(&block).unwrap();
    let mut it = slice_block.iter(LessThanComparator);

    it.seek(b"ab");
    assert!(it.is_valid());
    assert_eq!(it.key(), b"ab".to_vec());
    assert_eq!(it.value(), b"2");

    it.seek(b"aa");
    assert!(it.is_valid());
    assert_eq!(it.key(), b"ab".to_vec());
    assert_eq!(it.value(), b"2");

    it.seek(b"z");
    assert!(!it.is_valid());

    it.seek(b"");
    assert!(it.is_valid());
    assert_eq!(it.key(), b"a".to_vec());
}

#[test]
fn seek_finds_every_present_key() {
    let pairs: Vec<(Vec<u8>, Vec<u8>)> = (0..26u8)
        .map(|i| (vec![b'a' + i, b'x'], vec![i]))
        .collect();
    for interval in [1usize, 2, 3, 16] {
        let refs: Vec<(&[u8], &[u8])> =
            pairs.iter().map(|(k, v)| (k.as_slice(), v.as_slice())).collect();
        let block = build_block(&refs, interval);
        let owned = OwnedBlock::new(&block).unwrap();
        for (k, v) in &pairs {
            let mut it = owned.iter(LessThanComparator);
            it.seek(k);
            assert!(it.is_valid());
            assert_eq!(&it.key(), k);
            assert_eq!(it.value(), v.as_slice());
        }
    }
}

#[test]
fn seek_to_last_and_prev_walk_backward() {
    let block = build_sample(2);
    let owned = OwnedBlock::new(&block).unwrap();
    let mut it = owned.iter(LessThanComparator);
    it.seek_to_last();
    assert!(it.is_valid());
    assert_eq!(it.key(), b"b".to_vec());
    it.prev();
    assert!(it.is_valid());
    assert_eq!(it.key(), b"ab".to_vec());
    it.prev();
    assert!(it.is_valid());
    assert_eq!(it.key(), b"a".to_vec());
    it.prev();
    assert!(!it.is_valid());
}

#[test]
fn next_yields_entries_in_order() {
    let block = build_sample(2);
    let owned = OwnedBlock::new(&block).unwrap();
    let mut it = owned.iter(LessThanComparator);
    it.seek_to_first();
    assert!(it.is_valid());
    assert_eq!(it.key(), b"a".to_vec());
    let entry = it.next().unwrap();
    assert_eq!(entry.key, b"ab".to_vec());
    assert_eq!(entry.value, b"2".to_vec());
    let entry = it.next().unwrap();
    assert_eq!(entry.key, b"b".to_vec());
    assert!(it.next().is_none());
}

#[test]
fn empty_block_iterates_nothing() {
    let opts = options(4);
    let mut builder = BlockBuilder::new(&opts);
    assert!(builder.empty());
    let block = builder.finish();
    // Just the single restart offset and the count.
    assert_eq!(block.len(), 8);
    let owned = OwnedBlock::new(&block).unwrap();
    let mut it = owned.iter(LessThanComparator);
    it.seek_to_first();
    assert!(!it.is_valid());
    it.seek(b"anything");
    assert!(!it.is_valid());
}

#[test]
fn size_estimate_matches_finished_size() {
    let opts = options(2);
    let mut builder = BlockBuilder::new(&opts);
    for (k, v) in sample_pairs() {
        builder.add(&k, &v);
    }
    let estimate = builder.current_size_estimate();
    let block = builder.finish();
    assert_eq!(estimate, block.len());
}

#[test]
fn reset_clears_the_builder() {
    let opts = options(2);
    let mut builder = BlockBuilder::new(&opts);
    builder.add(b"k", b"v");
    assert!(!builder.empty());
    let first = builder.finish();
    builder.reset();
    assert!(builder.empty());
    builder.add(b"k", b"v");
    let second = builder.finish();
    assert_eq!(first, second);
}

#[test]
fn truncated_blocks_never_panic_and_end_invalid() {
    let block = build_sample(2);
    let restart_offset = block.len() - 4 * 3;
    for cut in 0..block.len() {
        let mut it = iter_slice(LessThanComparator, &block[..cut], restart_offset);
        if it.num_restarts >= 1 {
            it.seek_to_first();
            let mut steps = 0usize;
            while it.is_valid() && steps < block.len() {
                it.step();
                steps += 1;
            }
        }
        assert!(!it.is_valid());
    }
}

#[test]
fn truncated_entry_region_reports_corruption() {
    let block = build_sample(1);
    let data_len = block.len() - 4 * 4;
    // Rebuild ever-shorter entry regions under a minimal valid trailer.
    for cut in 0..data_len {
        let mut bytes = block[..cut].to_vec();
        // One restart offset pointing at the (possibly cut-off) first entry.
        bytes.extend_from_slice(&[0, 0, 0, 0]);
        bytes.extend_from_slice(&[1, 0, 0, 0]);
        let mut it = iter_slice(LessThanComparator, &bytes, cut);
        if it.num_restarts >= 1 {
            it.seek_to_first();
            let mut steps = 0usize;
            while it.is_valid() && steps < bytes.len() {
                it.step();
                steps += 1;
            }
        }
        assert!(!it.is_valid());
    }
}

#[test]
fn bad_block_contents_get_a_corrupt_iterator() {
    let it = iter_slice(LessThanComparator, &[1, 2], 0);
    assert!(!it.is_valid());
    assert!(matches!(it.status(), rubble::status::Status::Corruption(_)));
}

#[test]
fn block_objects_expose_their_bytes() {
    let block = build_sample(2);
    let owned = OwnedBlock::new(&block).unwrap();
    assert_eq!(owned.get_size(), block.len());
    assert_eq!(Block::data(&owned), block.as_slice());
    assert_eq!(Block::restart_offset(&owned), block.len() - 4 * 3);
    let borrowed = SliceBlock::new(&block).unwrap();
    assert_eq!(borrowed.get_size(), block.len());
    assert_eq!(Block::restart_offset(&borrowed), block.len() - 4 * 3);
}

#[test]
fn longer_shared_prefixes_compress() {
    let pairs: Vec<(Vec<u8>, Vec<u8>)> = vec![
        (b"apple".to_vec(), b"1".to_vec()),
        (b"applet".to_vec(), b"2".to_vec()),
        (b"apply".to_vec(), b"3".to_vec()),
        (b"banana".to_vec(), b"4".to_vec()),
    ];
    let refs: Vec<(&[u8], &[u8])> =
        pairs.iter().map(|(k, v)| (k.as_slice(), v.as_slice())).collect();
    let block = build_block(&refs, 16);
    let owned = OwnedBlock::new(&block).unwrap();
    let mut it = owned.iter(LessThanComparator);
    let mut seen: Vec<(Vec<u8>, Vec<u8>)> = Vec::new();
    it.seek_to_first();
    while it.is_valid() {
        seen.push((it.key(), it.value().to_vec()));
        it.step();
    }
    assert_eq!(seen, pairs);
}

#[test]
fn seek_lands_on_the_smallest_greater_key() {
    let pairs: Vec<(Vec<u8>, Vec<u8>)> = (0..13u8)
        .map(|i| (vec![b'a' + 2 * i], vec![i]))
        .collect();
    for interval in [1usize, 2, 5, 64] {
        let refs: Vec<(&[u8], &[u8])> =
            pairs.iter().map(|(k, v)| (k.as_slice(), v.as_slice())).collect();
        let block = build_block(&refs, interval);
        let owned = OwnedBlock::new(&block).unwrap();
        // Probe between the stored keys: each probe must land on the
        // next stored key.
        for i in 0..12u8 {
            let probe = vec![b'a' + 2 * i + 1];
            let mut it = owned.iter(LessThanComparator);
            it.seek(&probe);
            assert!(it.is_valid());
            assert_eq!(it.key(), vec![b'a' + 2 * (i + 1)]);
        }
        // A probe past the largest key leaves the cursor unpositioned.
        let mut it = owned.iter(LessThanComparator);
        it.seek(&[b'z']);
        assert!(!it.is_valid());
    }
}
