use non_blocking_memory::epoch::ReadResult;
use non_blocking_memory::ring::Ring;

#[test]
fn ring_retains_n_snapshots() {
    let mut ring: Ring<u64> = Ring::new(4);
    for i in 0..4u64 {
        ring.append(i);
    }

    // Most recent read
    assert_eq!(ring.read(0).value(), Some(3u64));
}

#[test]
fn ring_read_at_epoch() {
    let mut ring: Ring<u64> = Ring::new(8);
    for i in 1..=8u64 {
        ring.append(i);
    }

    // Read the snapshot that was at epoch 3
    match ring.read_at_epoch(3) {
        ReadResult::Value { value, epoch, .. } => {
            assert_eq!(epoch, 3);
            assert_eq!(value, 3u64);
        }
        _ => panic!("expected value at epoch 3"),
    }
}

#[test]
fn ring_cycles_correctly() {
    let mut ring: Ring<u64> = Ring::new(2);
    for i in 0..6u64 {
        ring.append(i);
    }
    // Latest is 5
    assert_eq!(ring.read(0).value(), Some(5u64));
}

#[test]
fn ring_forgets_what_was_lapped() {
    let mut ring: Ring<u32> = Ring::new(3);
    assert_eq!(ring.read(0), ReadResult::Empty);
    assert_eq!(ring.read_at_epoch(u64::MAX), ReadResult::Empty);
    for i in 1..=7u32 {
        assert_eq!(ring.write(10 * i).epoch, i as u64);
    }
    assert_eq!(ring.read_at_epoch(4), ReadResult::Empty);
    assert_eq!(ring.read_at_epoch(5), ReadResult::Value { value: 50, epoch: 5, missed: 0 });
    assert_eq!(ring.read_at_epoch(6), ReadResult::Value { value: 60, epoch: 6, missed: 0 });
    assert_eq!(ring.read_at_epoch(7), ReadResult::Value { value: 70, epoch: 7, missed: 0 });
    assert_eq!(ring.read_at_epoch(100), ReadResult::Value { value: 70, epoch: 7, missed: 0 });
    assert_eq!(ring.read_at_epoch(0), ReadResult::Empty);
    assert_eq!(ring.read(3), ReadResult::Value { value: 70, epoch: 7, missed: 3 });
    assert_eq!((ring.n_cells(), ring.write_pos(), ring.epoch()), (3, 1, 7));
    assert!(ring.write_pos() < ring.n_cells());
}

#[test]
fn ring_of_one_mixes_writes_and_appends() {
    let mut ring: Ring<u32> = Ring::new(1);
    ring.append(1);
    ring.write(2);
    ring.append(3);
    assert_eq!(ring.write_pos(), 0);
    assert_eq!(ring.read_at_epoch(2), ReadResult::Empty);
    assert_eq!(ring.read(2), ReadResult::Value { value: 3, epoch: 3, missed: 0 });
}
