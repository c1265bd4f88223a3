use non_blocking_memory::adaptive::{AdaptiveCell, AdaptiveRegistry};
use non_blocking_memory::bridge::{BridgedCell, WATERMARK};
use non_blocking_memory::cell::Cell;
use non_blocking_memory::epoch::ReadResult;
use non_blocking_memory::registry::ReaderRegistry;
use non_blocking_memory::workload::{
    checksum, make_payload, run_phases, MixedAction, MixedReader, SweepPolicy, Watch,
};

#[test]
fn checksum_adds_and_wraps() {
    assert_eq!(checksum(&[], 5), 5);
    assert_eq!(checksum(&[1, 2, 3], 10), 16);
    assert_eq!(checksum(&[u64::MAX, 2], 0), 1);
    assert_eq!(checksum(&make_payload(0), 0), 127 * 128 / 2);
}

#[test]
fn watch_counts_inversions() {
    let mut watch = Watch::new();
    watch.observe::<u32>(&ReadResult::Empty);
    for epoch in [1u64, 5, 5, 4, 6] {
        watch.observe(&ReadResult::Value { value: 0u32, epoch, missed: 0 });
    }
    assert_eq!(watch, Watch { last: 6, reads: 6, inversions: 1 });
}

#[test]
fn interleaved_readers_see_no_inversion() {
    let mut cell: Cell<u64> = Cell::new();
    let mut watches = [Watch::new(), Watch::new(), Watch::new(), Watch::new()];
    for i in 0..2000u64 {
        cell.write(i);
        for (k, watch) in watches.iter_mut().enumerate() {
            if i % (k as u64 + 1) == 0 {
                let r = cell.read(watch.last);
                watch.observe(&r);
                assert!(r.value().unwrap() < 2000);
            }
        }
    }
    for watch in watches {
        assert_eq!(watch.inversions, 0);
    }
    assert_eq!(cell.read(0).value(), Some(1999));
}

#[test]
fn sweep_policies() {
    let registry = ReaderRegistry::new();
    let mut cell: BridgedCell<u64> = BridgedCell::new();
    for i in 1..=10u64 {
        cell.write(i);
        assert_eq!(SweepPolicy::Watermark(1).after_write(i, &mut cell, &registry), 0);
    }
    assert_eq!(cell.retired_len(), 9);
    assert_eq!(SweepPolicy::Amortised(7).after_write(13, &mut cell, &registry), 0);
    assert_eq!(SweepPolicy::Amortised(7).after_write(14, &mut cell, &registry), 9);
    for i in 0..WATERMARK as u64 {
        cell.write(i);
    }
    assert_eq!(SweepPolicy::Watermark(4).after_write(5, &mut cell, &registry), 0);
    assert_eq!(SweepPolicy::Watermark(4).after_write(8, &mut cell, &registry), WATERMARK);
}

#[test]
fn mixed_reader_withdraws_once_per_phase() {
    let mut reader = MixedReader::new();
    assert_eq!(reader.next(0), MixedAction::Pin);
    assert_eq!(reader.next(49), MixedAction::Pin);
    assert_eq!(reader.next(50), MixedAction::WithdrawAndSample);
    assert_eq!(reader.next(51), MixedAction::Sample);
    assert_eq!(reader.next(99), MixedAction::Sample);
    assert_eq!(reader.next(100), MixedAction::Pin);
    assert_eq!(reader.next(160), MixedAction::WithdrawAndSample);
    assert_eq!(reader.next(260), MixedAction::Sample);
}

#[test]
fn phases_end_in_their_mode() {
    let mut registry = AdaptiveRegistry::new();
    let handle = registry.acquire();
    let mut cell = AdaptiveCell::<[u64; 16]>::new();
    cell.write([0; 16], &registry);
    run_phases(&mut cell, &mut registry, &handle, 4, 100);
    assert!(cell.is_hot() && registry.any_demand());
    assert_eq!(cell.epoch(), 401);
    assert_eq!(cell.read(0).value(), Some([400; 16]));
    run_phases(&mut cell, &mut registry, &handle, 1, 100);
    assert!(!cell.is_hot() && !registry.any_demand());
    assert_eq!(cell.read(0).value(), Some([100; 16]));
    assert_eq!(registry.floors.floor_min(), u64::MAX);
    // Shorter than the hysteresis window: still hot.
    run_phases(&mut cell, &mut registry, &handle, 3, 10);
    assert!(cell.is_hot() && !registry.any_demand());
    run_phases(&mut cell, &mut registry, &handle, 0, 10);
    assert_eq!(cell.epoch(), 531);
}
