use non_blocking_memory::cell::{read_loaded, Block, Cell, ChainIter};
use non_blocking_memory::epoch::{missed_since, ReadResult, WriteResult};
use non_blocking_memory::payload::{decode_inline, encode_inline, tag, InBlock, INLINE_TAG};

// ── Mutable write: small (inline) ────────────────────────────────────────────

#[test]
fn mutable_small_inline_u32() {
    let mut cell: Cell<u32> = Cell::new();
    assert_eq!(cell.read(0), ReadResult::Empty);

    let w = cell.write(42u32);
    assert_eq!(w.epoch, 1);

    match cell.read(0) {
        ReadResult::Value { value, epoch, missed } => {
            assert_eq!(value, 42u32);
            assert_eq!(epoch, 1);
            assert_eq!(missed, 0);
        }
        _ => panic!("expected Value"),
    }

    // Tag bit must be set (inline encoding, no Block allocation)
    let bits = cell.inline_bits().expect("u32 must be inline");
    assert_eq!(bits & INLINE_TAG, INLINE_TAG, "u32 must be inline");
}

#[test]
fn mutable_small_u8() {
    let mut cell: Cell<u8> = Cell::new();
    cell.write(255u8);
    assert_eq!(cell.read(0).value(), Some(255u8));
}

#[test]
fn mutable_small_u16() {
    let mut cell: Cell<u16> = Cell::new();
    cell.write(1234u16);
    assert_eq!(cell.read(0).value(), Some(1234u16));
}

#[test]
fn mutable_small_overwrite() {
    let mut cell: Cell<u32> = Cell::new();
    for i in 0..100u32 {
        cell.write(i);
    }
    assert_eq!(cell.read(0).value(), Some(99u32));
}

// ── Mutable write: large (Block) ─────────────────────────────────────────────

#[test]
fn mutable_large_u64() {
    let mut cell: Cell<u64> = Cell::new();
    cell.write(9999u64);
    assert_eq!(cell.read(0).value(), Some(9999u64));

    // Must NOT be inline (u64 is 8 bytes)
    assert_eq!(cell.inline_bits(), None, "u64 must use Block pointer");
    assert!(cell.head_ptr().is_some(), "u64 must use Block pointer");
}

#[derive(Clone, Debug, PartialEq)]
struct Reading {
    temp: f64,
    pressure: f64,
}

#[test]
fn mutable_large_struct() {
    let mut cell: Cell<InBlock<Reading>> = Cell::new();
    cell.write(InBlock { value: Reading { temp: 23.5, pressure: 1013.25 } });
    let v = cell.read(0).value().unwrap().value;
    assert_eq!(v.temp, 23.5);
    assert_eq!(v.pressure, 1013.25);
}

// ── Epoch: write counter ─────────────────────────────────────────────────────

#[test]
fn epoch_increments_each_write() {
    let mut cell: Cell<u32> = Cell::new();
    for i in 1..=5u32 {
        let w = cell.write(i);
        assert_eq!(w.epoch, i as u64);
    }
    assert_eq!(cell.epoch(), 5);
}

#[test]
fn epoch_increments_on_append() {
    let mut cell: Cell<u64> = Cell::new();
    for i in 1..=5u64 {
        let w = cell.append(i);
        assert_eq!(w.epoch, i);
    }
}

// ── Epoch: backpressure signal (missed writes) ───────────────────────────────

#[test]
fn missed_zero_when_current() {
    let mut cell: Cell<u32> = Cell::new();
    let w = cell.write(1);
    let r = cell.read(w.epoch - 1); // pass previous epoch
    assert_eq!(r.missed(), 0, "no missed writes when fully current");
}

#[test]
fn missed_counts_skipped_writes() {
    let mut cell: Cell<u32> = Cell::new();
    cell.write(1); // epoch 1
    cell.write(2); // epoch 2
    cell.write(3); // epoch 3
    cell.write(4); // epoch 4

    // Reader last saw epoch 1, now reading epoch 4
    let r = cell.read(1);
    assert_eq!(r.missed(), 2, "missed writes 2 and 3");
    assert_eq!(r.value(), Some(4u32));
}

#[test]
fn missed_zero_on_first_read() {
    let mut cell: Cell<u32> = Cell::new();
    for _ in 0..10 {
        cell.write(42);
    }
    // last_epoch=0 means "first read, no baseline"
    let r = cell.read(0);
    assert_eq!(r.missed(), 0, "first read: missed is always 0");
}

#[test]
fn caller_can_detect_write_pressure() {
    let mut cell: Cell<u32> = Cell::new();
    // Simulate fast writer: 1000 writes before reader checks
    for i in 0..1000u32 {
        cell.write(i);
    }

    let r = cell.read(0); // first read: missed=0 (no baseline)
    let last = r.epoch();

    // Simulate more writes while reader is "busy"
    for i in 1000..1050u32 {
        cell.write(i);
    }

    let r2 = cell.read(last);
    assert_eq!(r2.missed(), 49, "reader missed 49 writes");
}

// ── Immutable append: causal chain ───────────────────────────────────────────

#[test]
fn append_builds_causal_chain() {
    let mut cell: Cell<u64> = Cell::new();
    for i in 0..5u64 {
        cell.append(i);
    }

    let chain: Vec<u64> = cell.chain().collect();
    assert_eq!(chain, vec![4, 3, 2, 1, 0], "newest first");
}

#[test]
fn append_epoch_in_chain() {
    let mut cell: Cell<u64> = Cell::new();
    for i in 0..3u64 {
        cell.append(i);
    }

    let head = cell.head_ptr();
    assert!(head.is_some());
    let head = head.unwrap();
    assert_eq!(head.epoch, 3); // latest block has epoch 3
    assert_eq!(head.prev.unwrap().epoch, 2);
    assert_eq!(head.prev.unwrap().prev.unwrap().epoch, 1);
}

#[test]
fn append_snapshot_stable_after_further_appends() {
    let mut cell: Cell<u64> = Cell::new();
    for i in 0..6u64 {
        cell.append(i);
    }

    // Capture a snapshot reference
    let snap = cell.head_ptr().unwrap();
    assert_eq!(snap.value, 5);

    // More writes
    for i in 6..20u64 {
        cell.append(i);
    }

    // Snapshot still valid: the Block is immutable, not freed
    assert_eq!(snap.value, 5, "snapshot must be stable");
}

// ── Cell size ────────────────────────────────────────────────────────────────

#[test]
fn cell_is_minimal() {
    assert_eq!(std::mem::size_of::<Cell<u32>>(), 16);
    assert_eq!(std::mem::size_of::<Cell<u64>>(), 16);
    assert_eq!(std::mem::size_of::<Cell<[u8; 256]>>(), 16);
}

// ── Further behaviour ────────────────────────────────────────────────────────

#[test]
fn fresh_cell_is_empty_and_at_epoch_zero() {
    let cell: Cell<u64> = Cell::default();
    assert_eq!(cell.epoch(), 0);
    assert_eq!(cell.read(u64::MAX), ReadResult::Empty);
    assert!(cell.head_ptr().is_none());
    assert!(cell.chain().collect().is_empty());
    assert_eq!(cell.inline_bits(), None);
}

#[test]
fn read_of_a_future_baseline_saturates() {
    let mut cell: Cell<u32> = Cell::new();
    cell.write(1);
    assert_eq!(cell.read(100).missed(), 0);
    assert_eq!(missed_since(10, 3), 6);
    assert_eq!(missed_since(10, 0), 0);
    assert_eq!(missed_since(10, 10), 0);
    assert_eq!(missed_since(u64::MAX, 1), u64::MAX - 2);
}

#[test]
fn write_cuts_the_history() {
    let mut cell: Cell<u64> = Cell::new();
    cell.append(1);
    cell.append(2);
    cell.write(3);
    assert_eq!(cell.chain().collect(), vec![3]);
    cell.append(4);
    assert_eq!(cell.chain().collect(), vec![4, 3]);
    assert_eq!(cell.epoch(), 4);
}

#[test]
fn append_after_inline_write_starts_afresh() {
    let mut cell: Cell<u32> = Cell::new();
    cell.write(1);
    assert!(cell.chain().collect().is_empty());
    cell.append(2);
    cell.append(3);
    assert_eq!(cell.inline_bits(), None, "append always makes a Block");
    assert_eq!(cell.chain().collect(), vec![3, 2]);
    assert_eq!(cell.read(0).value(), Some(3));
    cell.write(9);
    assert_eq!(cell.inline_bits(), Some(19));
    assert_eq!(cell.read(3), ReadResult::Value { value: 9, epoch: 4, missed: 0 });
}

#[test]
fn explicit_epochs_are_kept() {
    let mut cell: Cell<u64> = Cell::new();
    assert_eq!(cell.append_with_epoch(5, 40), WriteResult { epoch: 40 });
    assert_eq!(cell.write_with_epoch(6, 41), WriteResult { epoch: 41 });
    assert_eq!(cell.append(7).epoch, 42);
    assert_eq!(cell.read(0), ReadResult::Value { value: 7, epoch: 42, missed: 0 });
}

#[test]
fn written_cell_is_never_empty() {
    // Whatever the epoch, only a cell that was never written reads as empty.
    let mut cell: Cell<u64> = Cell::new();
    assert_eq!(cell.read(0), ReadResult::Empty);
    cell.write_with_epoch(8, 0);
    assert_eq!(cell.read(0), ReadResult::Value { value: 8, epoch: 0, missed: 0 });
    cell.append_with_epoch(9, 0);
    assert_eq!(cell.read(5), ReadResult::Value { value: 9, epoch: 0, missed: 0 });
    let mut cell: Cell<u32> = Cell::new();
    cell.write_with_epoch(0, 0);
    assert_eq!(cell.read(0), ReadResult::Value { value: 0, epoch: 0, missed: 0 });
    cell.write(0);
    assert_eq!(cell.read(0), ReadResult::Value { value: 0, epoch: 1, missed: 0 });
}

#[test]
fn write_puts_a_new_block_at_the_head() {
    let mut cell: Cell<u64> = Cell::new();
    cell.append(1);
    cell.append(2);
    let replaced = cell.head_ptr().unwrap();
    cell.write(2);
    let head = cell.head_ptr().unwrap();
    assert_eq!((head.epoch, head.prev.is_none()), (3, true));
    assert_eq!((replaced.value, replaced.epoch), (2, 2));
    assert_eq!(replaced.prev.unwrap().value, 1);
}

#[test]
fn loaded_words_are_read() {
    assert_eq!(read_loaded::<u32>(0, 85, 0), ReadResult::Empty);
    assert_eq!(read_loaded::<u32>(3, 0, u64::MAX), ReadResult::Empty);
    assert_eq!(
        read_loaded::<u32>(5, 85, 2),
        ReadResult::Value { value: 42, epoch: 5, missed: 2 }
    );
    assert_eq!(read_loaded::<bool>(5, 5, 2), ReadResult::Empty);
    let mut cell: Cell<u16> = Cell::new();
    cell.write(7);
    cell.write(8);
    let bits = cell.inline_bits().unwrap();
    assert_eq!(read_loaded(cell.epoch(), bits, 1), cell.read(1));
}

#[test]
fn read_result_accessors() {
    let r = ReadResult::Value { value: 7u8, epoch: 3, missed: 1 };
    assert_eq!((r.epoch(), r.missed()), (3, 1));
    assert_eq!(r.value(), Some(7));
    let e: ReadResult<u8> = ReadResult::Empty;
    assert_eq!((e.epoch(), e.missed()), (0, 0));
    assert_eq!(e.value(), None);
}

#[test]
fn chain_iterator_steps_to_the_oldest() {
    let oldest = Block::allocate(1u64, None, 1);
    let newest = Block::allocate(2u64, Some(oldest), 2);
    let mut iter = ChainIter::new(Some(newest));
    assert_eq!(iter.next(), Some(2));
    assert_eq!(iter.next(), Some(1));
    assert_eq!(iter.next(), None);
    assert_eq!(iter.next(), None);
}

#[test]
fn inline_words_round_trip() {
    assert_eq!(encode_inline(&42u32), Some(85));
    assert_eq!(encode_inline(&255u8), Some(511));
    assert_eq!(encode_inline(&-1i8), Some(511));
    assert_eq!(encode_inline(&-1i32), Some(0x1_ffff_ffff));
    assert_eq!(encode_inline(&true), Some(3));
    assert_eq!(encode_inline(&()), Some(1));
    assert_eq!(encode_inline(&[1u8, 2, 3]), Some(2 * 0x03_02_01 + 1));
    assert_eq!(encode_inline(&42u64), None);
    assert_eq!(encode_inline(&[0u8; 5]), None);
    assert_eq!(tag(0), 1);

    assert_eq!(decode_inline::<u32>(85), Some(42));
    assert_eq!(decode_inline::<i8>(511), Some(-1));
    assert_eq!(decode_inline::<i16>(2 * 0x8000 + 1), Some(i16::MIN));
    assert_eq!(decode_inline::<[u8; 3]>(2 * 0x03_02_01 + 1), Some([1, 2, 3]));
    // What stands above the bytes of the type does not count.
    assert_eq!(decode_inline::<[u8; 3]>(2 * 0x0105_0000 + 1), Some([0, 0, 5]));
    assert_eq!(decode_inline::<u8>(513), Some(0));
    assert_eq!(decode_inline::<i8>(2 * 0x01ff + 1), Some(-1));
    assert_eq!(decode_inline::<u16>(2 * 0x0003_0002 + 1), Some(2));
    assert_eq!(decode_inline::<()>(99), Some(()));
    assert_eq!(decode_inline::<bool>(2 * 0x0100 + 1), Some(false));
    assert_eq!(decode_inline::<bool>(5), None);
    assert_eq!(decode_inline::<u64>(1), None);
}

#[test]
fn characters_travel_inline() {
    let mut cell: Cell<char> = Cell::new();
    cell.write('é');
    assert_eq!(cell.inline_bits(), Some(2 * 0xe9 + 1));
    assert_eq!(cell.read(0).value(), Some('é'));
    assert_eq!(decode_inline::<char>(2 * 0x1f600 + 1), Some('\u{1f600}'));
    assert_eq!(decode_inline::<char>(2 * 0xd800 + 1), None);
    assert_eq!(decode_inline::<char>(2 * 0x110000 + 1), None);
}

#[test]
fn heap_values_travel_in_blocks() {
    let mut cell: Cell<String> = Cell::new();
    cell.write(String::from("a"));
    cell.append(String::from("b"));
    assert_eq!(cell.chain().collect(), vec!["b", "a"]);
    let mut cell: Cell<Vec<u64>> = Cell::new();
    cell.write(vec![1, 2, 3]);
    assert_eq!(cell.read(0).value(), Some(vec![1, 2, 3]));
    let mut cell: Cell<[u8; 8]> = Cell::new();
    cell.write([7; 8]);
    assert_eq!(cell.read(0).value(), Some([7; 8]));
    let mut cell: Cell<InBlock<(u64, String)>> = Cell::new();
    cell.append(InBlock { value: (1, String::from("a")) });
    cell.append(InBlock { value: (2, String::from("b")) });
    assert_eq!(cell.inline_bits(), None);
    assert_eq!(cell.chain().collect()[1].value, (1, String::from("a")));
    let mut cell: Cell<[u8; 4]> = Cell::new();
    cell.write([1, 2, 3, 4]);
    assert!(cell.inline_bits().is_some());
    assert_eq!(cell.read(0).value(), Some([1, 2, 3, 4]));
}

#[test]
fn long_chains_are_kept_and_dropped_without_trouble() {
    let mut cell: Cell<u64> = Cell::new();
    for i in 0..200_000u64 {
        cell.append(i);
    }
    assert_eq!(cell.chain().collect().len(), 200_000);
}
