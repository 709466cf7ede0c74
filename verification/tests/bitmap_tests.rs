use rte::bitmap::{memory_footprint, Bitmap, BitmapError};

fn backing(bytes: u32) -> Vec<u64> {
    vec![0u64; ((bytes as usize) + 7) / 8]
}

fn make(bits: u32) -> Bitmap {
    let bytes = memory_footprint(bits);
    Bitmap::init(bits, backing(bytes), bytes).unwrap()
}

#[test]
fn footprint_small_values() {
    // One block: one array1 cache line plus one array2 cache line.
    assert_eq!(memory_footprint(1), 128);
    assert_eq!(memory_footprint(64), 128);
    assert_eq!(memory_footprint(128), 128);
    assert_eq!(memory_footprint(512), 128);
    // Two blocks: array2 grows by one cache line.
    assert_eq!(memory_footprint(513), 192);
    assert_eq!(memory_footprint(1024), 192);
}

#[test]
fn footprint_zero_bits_is_reserved_minimum() {
    assert_eq!(memory_footprint(0), memory_footprint(1));
}

#[test]
fn footprint_monotone_samples() {
    let samples = [0u32, 1, 63, 64, 65, 511, 512, 513, 4096, 100_000, u32::MAX];
    for w in samples.windows(2) {
        assert!(memory_footprint(w[0]) <= memory_footprint(w[1]));
    }
}

#[test]
fn init_rejects_zero_bits() {
    let r = Bitmap::init(0, backing(256), 256);
    assert_eq!(r.err().unwrap(), BitmapError::InvalidArgument);
}

#[test]
fn init_rejects_undersized_block_by_one_byte() {
    let bits = 1024;
    let bytes = memory_footprint(bits);
    let r = Bitmap::init(bits, backing(bytes), bytes - 1);
    assert!(r.is_err());
    assert_eq!(r.err().unwrap(), BitmapError::InvalidArgument);
}

#[test]
fn init_rejects_block_shorter_than_declared() {
    let bits = 1024;
    let bytes = memory_footprint(bits);
    // A vector one slab short of what mem_size claims.
    let short = vec![0u64; (bytes as usize) / 8 - 1];
    let r = Bitmap::init(bits, short, bytes);
    assert_eq!(r.err().unwrap(), BitmapError::InvalidArgument);
}

#[test]
fn init_accepts_exact_footprint() {
    let bits = 1024;
    let bytes = memory_footprint(bits);
    assert!(Bitmap::init(bits, backing(bytes), bytes).is_ok());
}

#[test]
fn init_accepts_dirty_memory_and_starts_clear() {
    let bits = 600;
    let bytes = memory_footprint(bits);
    let dirty = vec![u64::MAX; ((bytes as usize) + 7) / 8];
    let mut bm = Bitmap::init(bits, dirty, bytes).unwrap();
    for pos in [0u32, 5, 63, 64, 511, 512, 599] {
        assert_eq!(bm.get(pos), Ok(false));
    }
    assert_eq!(bm.scan(), None);
}

#[test]
fn set_get_round_trip() {
    let mut bm = make(1024);
    for pos in [0u32, 1, 63, 64, 65, 500, 511, 512, 513, 1023] {
        assert_eq!(bm.get(pos), Ok(false));
        assert_eq!(bm.set(pos), Ok(()));
        assert_eq!(bm.get(pos), Ok(true));
    }
}

#[test]
fn clear_get_round_trip() {
    let mut bm = make(1024);
    for pos in [0u32, 63, 64, 511, 512, 1023] {
        bm.set(pos).unwrap();
        assert_eq!(bm.clear(pos), Ok(()));
        assert_eq!(bm.get(pos), Ok(false));
    }
}

#[test]
fn set_does_not_touch_neighbours() {
    let mut bm = make(256);
    bm.set(5).unwrap();
    assert_eq!(bm.get(4), Ok(false));
    assert_eq!(bm.get(6), Ok(false));
    assert_eq!(bm.get(69), Ok(false));
}

#[test]
fn repeated_set_is_idempotent() {
    let mut bm = make(256);
    bm.set(77).unwrap();
    bm.set(77).unwrap();
    bm.set(77).unwrap();
    assert_eq!(bm.get(77), Ok(true));
    // One pass sees exactly one nonzero slab, as after a single set.
    assert_eq!(bm.scan(), Some((64, 1u64 << 13)));
    assert_eq!(bm.scan(), Some((64, 1u64 << 13)));
}

#[test]
fn repeated_clear_is_idempotent() {
    let mut bm = make(256);
    bm.set(10).unwrap();
    bm.clear(10).unwrap();
    bm.clear(10).unwrap();
    assert_eq!(bm.get(10), Ok(false));
    assert_eq!(bm.scan(), None);
}

#[test]
fn out_of_range_positions_are_rejected() {
    let mut bm = make(128);
    assert_eq!(bm.get(128), Err(BitmapError::OutOfRange));
    assert_eq!(bm.get(u32::MAX), Err(BitmapError::OutOfRange));
    assert_eq!(bm.set(128), Err(BitmapError::OutOfRange));
    assert_eq!(bm.clear(200), Err(BitmapError::OutOfRange));
    assert_eq!(bm.set_slab(128, 1), Err(BitmapError::OutOfRange));
    assert_eq!(bm.prefetch0(128), Err(BitmapError::OutOfRange));
    // The rejected calls left nothing behind.
    assert_eq!(bm.scan(), None);
}

#[test]
fn prefetch_is_advisory() {
    let mut bm = make(128);
    bm.set(3).unwrap();
    assert_eq!(bm.prefetch0(0), Ok(()));
    assert_eq!(bm.prefetch0(127), Ok(()));
    assert_eq!(bm.get(3), Ok(true));
    assert_eq!(bm.get(4), Ok(false));
}

#[test]
fn scan_two_slabs_with_wraparound() {
    // 128 bits: two slabs. Set bits 5 and 70; the first scan returns the
    // slab holding bit 5, the second the slab holding bit 70, the third
    // wraps back to the first slab.
    let mut bm = make(128);
    bm.set(5).unwrap();
    bm.set(70).unwrap();
    assert_eq!(bm.get(5), Ok(true));
    assert_eq!(bm.get(6), Ok(false));
    assert_eq!(bm.scan(), Some((0, 1u64 << 5)));
    assert_eq!(bm.scan(), Some((64, 1u64 << 6)));
    assert_eq!(bm.scan(), Some((0, 1u64 << 5)));
}

#[test]
fn scan_empty_bitmap_returns_none() {
    let mut bm = make(4096);
    assert_eq!(bm.scan(), None);
    assert_eq!(bm.scan(), None);
}

#[test]
fn scan_skips_empty_blocks() {
    // 8192 bits = 16 blocks; only the last block holds a bit.
    let mut bm = make(8192);
    bm.set(8191).unwrap();
    assert_eq!(bm.scan(), Some((8128, 1u64 << 63)));
    // Wraps and finds the same slab again.
    assert_eq!(bm.scan(), Some((8128, 1u64 << 63)));
}

#[test]
fn scan_visits_every_nonzero_slab_once_per_pass() {
    let bits = 4096u32;
    let mut bm = make(bits);
    let positions = [3u32, 64, 130, 1000, 2048, 2111, 4095];
    for &p in positions.iter() {
        bm.set(p).unwrap();
    }
    let expected_slabs: Vec<u32> = {
        let mut s: Vec<u32> = positions.iter().map(|p| p / 64 * 64).collect();
        s.sort();
        s.dedup();
        s
    };
    // One full pass from the rewound cursor visits each nonzero slab
    // exactly once, in position order.
    let mut seen: Vec<u32> = Vec::new();
    for _ in 0..expected_slabs.len() {
        let (pos, slab) = bm.scan().unwrap();
        assert_ne!(slab, 0);
        seen.push(pos);
    }
    assert_eq!(seen, expected_slabs);
    // The next pass repeats the same cycle.
    let (pos, _) = bm.scan().unwrap();
    assert_eq!(pos, expected_slabs[0]);
}

#[test]
fn scan_resumes_after_cursor() {
    let mut bm = make(1024);
    bm.set(0).unwrap();
    bm.set(640).unwrap();
    assert_eq!(bm.scan(), Some((0, 1)));
    // Clearing the slab already behind the cursor does not disturb the
    // rest of the pass.
    bm.clear(0).unwrap();
    assert_eq!(bm.scan(), Some((640, 1)));
    assert_eq!(bm.scan(), Some((640, 1)));
}

#[test]
fn set_slab_replaces_whole_word() {
    let mut bm = make(256);
    bm.set(70).unwrap();
    // Writing the slab containing bit 70 replaces its prior content.
    assert_eq!(bm.set_slab(64, 0b1010), Ok(()));
    assert_eq!(bm.get(70), Ok(false));
    assert_eq!(bm.get(65), Ok(true));
    assert_eq!(bm.get(67), Ok(true));
    assert_eq!(bm.scan(), Some((64, 0b1010)));
}

#[test]
fn set_slab_position_is_slab_aligned() {
    let mut bm = make(256);
    // Any position inside the slab addresses the whole slab.
    assert_eq!(bm.set_slab(130, 0xff), Ok(()));
    assert_eq!(bm.get(128), Ok(true));
    assert_eq!(bm.get(135), Ok(true));
    assert_eq!(bm.get(136), Ok(false));
}

#[test]
fn set_slab_zero_empties_block_for_scan() {
    let mut bm = make(128);
    bm.set(3).unwrap();
    assert_eq!(bm.set_slab(3, 0), Ok(()));
    assert_eq!(bm.scan(), None);
}

#[test]
fn clear_last_bit_of_block_hides_it_from_scan() {
    let mut bm = make(2048);
    bm.set(600).unwrap();
    bm.set(601).unwrap();
    bm.clear(600).unwrap();
    assert_eq!(bm.scan(), Some((576, 1u64 << 25)));
    bm.clear(601).unwrap();
    assert_eq!(bm.scan(), None);
}

#[test]
fn reset_clears_everything() {
    let mut bm = make(2048);
    for p in [1u32, 100, 512, 1999] {
        bm.set(p).unwrap();
    }
    bm.reset();
    assert_eq!(bm.scan(), None);
    for p in [1u32, 100, 512, 1999] {
        assert_eq!(bm.get(p), Ok(false));
    }
}

#[test]
fn init_accepts_oversized_block() {
    let bits = 100;
    let bytes = memory_footprint(bits);
    let mut bm = Bitmap::init(bits, backing(4 * bytes), 4 * bytes).unwrap();
    bm.set(99).unwrap();
    assert_eq!(bm.get(99), Ok(true));
}

#[test]
fn freed_block_can_back_a_new_bitmap() {
    let bits = 512;
    let bytes = memory_footprint(bits);
    let mut bm = Bitmap::init(bits, backing(bytes), bytes).unwrap();
    bm.set(17).unwrap();
    let block = bm.free();
    // The caller still owns the memory and may reuse it; init clears
    // whatever the previous life left behind.
    let mut bm2 = Bitmap::init(bits, block, bytes).unwrap();
    assert_eq!(bm2.get(17), Ok(false));
    assert_eq!(bm2.scan(), None);
}

#[test]
fn free_returns_backing_block() {
    let bits = 1024;
    let bytes = memory_footprint(bits);
    let mut bm = Bitmap::init(bits, backing(bytes), bytes).unwrap();
    bm.set(42).unwrap();
    let block = bm.free();
    assert!(block.len() * 8 >= bytes as usize);
}

#[test]
fn free_hands_back_the_written_slabs() {
    // 128 bits: one array1 cache line (slabs 0..8), one array2 cache
    // line (slabs 8..16). The returned block carries the bits where the
    // layout put them.
    let mut bm = make(128);
    bm.set(5).unwrap();
    bm.set(70).unwrap();
    let block = bm.free();
    assert_eq!(block.len(), 16);
    assert_eq!(block[8], 1u64 << 5);
    assert_eq!(block[9], 1u64 << 6);
    // Array1: the single block is marked nonempty.
    assert_eq!(block[0], 1);
}

#[test]
fn init_leaves_the_tail_of_an_oversized_block_alone() {
    let bits = 128;
    let bytes = memory_footprint(bits); // 16 slabs
    let mut block = vec![0xdead_beef_dead_beefu64; 20];
    let mut bm = Bitmap::init(bits, block, bytes).unwrap();
    bm.set(3).unwrap();
    bm.set(70).unwrap();
    bm.clear(70).unwrap();
    block = bm.free();
    assert_eq!(block.len(), 20);
    // The layout's slabs were zeroed and then written...
    assert_eq!(block[8], 1u64 << 3);
    assert_eq!(block[9], 0);
    // ...and everything past the footprint survived untouched.
    for i in 16..20 {
        assert_eq!(block[i], 0xdead_beef_dead_beefu64);
    }
}

#[test]
fn set_slab_padding_bits_are_visible_to_scan_only() {
    // With bits = 100 the last in-range slab covers positions 64..127,
    // of which 100..127 are padding. set_slab writes the whole word, so
    // a padding bit can make scan report the slab while every valid
    // position still reads false.
    let mut bm = make(100);
    bm.set_slab(64, 1u64 << 60).unwrap();
    for p in 64..100 {
        assert_eq!(bm.get(p), Ok(false));
    }
    assert_eq!(bm.get(124), Err(BitmapError::OutOfRange));
    assert_eq!(bm.scan(), Some((64, 1u64 << 60)));
    // The reported position itself is always in range.
    let (pos, _) = bm.scan().unwrap();
    assert!(pos < 100);
}

#[test]
fn footprint_of_largest_bit_count() {
    // 2^23 blocks of 64 bytes for array2, plus 2^17 slabs of array1:
    // the footprint stays well inside u32 range.
    let bytes = memory_footprint(u32::MAX);
    assert_eq!(bytes, 8 * (131_072 + 8 * 8_388_608));
}
