use non_blocking_memory::bridge::{BridgedCell, WATERMARK};
use non_blocking_memory::epoch::ReadResult;
use non_blocking_memory::registry::{HoldStack, ReaderRegistry, IDLE};
use std::sync::atomic::{AtomicUsize, Ordering};

#[test]
fn view_survives_writes_until_released() {
    let mut registry = ReaderRegistry::new();
    let handle = registry.acquire();
    let mut cell: BridgedCell<Vec<u64>> = BridgedCell::new();

    cell.write(vec![1, 2, 3]);
    let r = cell.read_ref(&mut registry, &handle, 0).unwrap();
    cell.write(vec![4, 5, 6]); // old block goes to the retired list
    cell.reclaim(&registry);
    assert_eq!(r.get(&cell), Some(&vec![1, 2, 3]));
    assert_eq!(cell.retired_len(), 1);

    r.release(&mut registry);
    assert_eq!(cell.reclaim(&registry), 1); // frees the old block
    assert_eq!(cell.retired_len(), 0);
    assert_eq!(cell.read(0), ReadResult::Value { value: vec![4, 5, 6], epoch: 2, missed: 0 });
}

#[test]
fn lazy_writes_free_at_once_while_nobody_registered() {
    let mut registry = ReaderRegistry::new();
    let mut cell: BridgedCell<Vec<u64>> = BridgedCell::new();
    cell.write_lazy(vec![1, 2, 3], &registry);
    cell.write_lazy(vec![4, 5, 6], &registry);
    assert_eq!(cell.retired_len(), 0);

    // An idle reader changes nothing.
    let handle = registry.acquire();
    assert!(registry.has_any_reader());
    cell.write_lazy(vec![7], &registry);
    assert_eq!(cell.retired_len(), 0);

    // A pinning reader does.
    let r = cell.read_ref(&mut registry, &handle, 0).unwrap();
    cell.write_lazy(vec![8], &registry);
    cell.write_lazy(vec![9], &registry);
    assert_eq!(cell.retired_len(), 2);
    assert_eq!(r.get(&cell), Some(&vec![7]));
    assert_eq!(r.epoch(), 3);
}

#[test]
fn materialised_reads_pin_nothing() {
    let mut registry = ReaderRegistry::new();
    let _handle = registry.acquire();
    let mut cell: BridgedCell<u64> = BridgedCell::new();
    assert_eq!(cell.read(0), ReadResult::Empty);
    cell.write(1);
    let owned = cell.read(0).value();
    assert_eq!(registry.floor_min(), IDLE);
    cell.write(2);
    assert_eq!(cell.reclaim(&registry), 1);
    assert_eq!(owned, Some(1));
}

#[test]
fn floor_min_reflects_slowest_reader() {
    let mut registry = ReaderRegistry::new();
    let a = registry.acquire();
    let b = registry.acquire();
    assert_eq!((a.slot_index(), b.slot_index()), (0, 1));
    let mut cell: BridgedCell<u64> = BridgedCell::new();
    assert!(cell.read_ref(&mut registry, &a, 0).is_none());
    assert_eq!(registry.floor_min(), IDLE);
    cell.write(1);
    let ra = cell.read_ref(&mut registry, &a, 0).unwrap();
    cell.write(2);
    let rb = cell.read_ref(&mut registry, &b, 1).unwrap();
    assert_eq!(rb.missed(), 0);
    assert_eq!(registry.floor_min(), 1);
    ra.release(&mut registry);
    assert_eq!(registry.floor_min(), 2);
    rb.release(&mut registry);
    assert_eq!(registry.floor_min(), IDLE);
}

#[test]
fn dead_reader_stops_pinning() {
    let mut registry = ReaderRegistry::new();
    let handle = registry.acquire();
    let mut cell: BridgedCell<u64> = BridgedCell::new();
    cell.write(1);
    let r = cell.read_ref(&mut registry, &handle, 0).unwrap();
    cell.write(2);
    registry.release(handle);
    assert_eq!(registry.floor_min(), IDLE);
    assert_eq!(cell.reclaim(&registry), 1);
    // The view no longer finds its block, and giving it up is harmless.
    assert_eq!(r.get(&cell), None);
    r.release(&mut registry);
    assert_eq!(registry.floor_min(), IDLE);
}

#[test]
fn announcement_blocks_sweeps_until_settled() {
    let mut registry = ReaderRegistry::new();
    let handle = registry.acquire();
    let mut cell: BridgedCell<u64> = BridgedCell::new();
    for i in 0..5 {
        cell.write(i);
    }
    registry.announce(&handle);
    assert_eq!(registry.floor_min(), 1);
    assert_eq!(cell.reclaim(&registry), 0);
    registry.settle(&handle);
    assert_eq!(cell.reclaim(&registry), 4);
}

#[test]
fn watermark_gates_the_sweep() {
    let registry = ReaderRegistry::default();
    let mut cell: BridgedCell<u64> = BridgedCell::new();
    for i in 0..(WATERMARK as u64) {
        cell.write(i);
    }
    assert_eq!(cell.retired_len(), WATERMARK - 1);
    assert_eq!(cell.reclaim_if_watermark(&registry), 0);
    cell.write(0);
    assert_eq!(cell.reclaim_if_watermark(&registry), WATERMARK);
    assert_eq!(cell.retired_len(), 0);
    assert_eq!(cell.epoch(), WATERMARK as u64 + 1);
}

#[test]
fn small_values_need_no_blocks() {
    let mut registry = ReaderRegistry::new();
    let handle = registry.acquire();
    let mut cell: BridgedCell<u16> = BridgedCell::new();
    cell.write(7);
    let r = cell.read_ref(&mut registry, &handle, 0).unwrap();
    assert_eq!(registry.floor_min(), IDLE);
    cell.write(8);
    assert_eq!(cell.retired_len(), 0);
    assert_eq!(r.get(&cell), Some(&7));
    assert_eq!(cell.block(1), None);
    assert_eq!(cell.read(1), ReadResult::Value { value: 8, epoch: 2, missed: 0 });
}

#[test]
fn blocks_are_found_by_epoch() {
    let mut cell: BridgedCell<u64> = BridgedCell::new();
    cell.write(10);
    cell.write(20);
    cell.write(30);
    assert_eq!(cell.block(0), None);
    assert_eq!(cell.block(1), Some(&10));
    assert_eq!(cell.block(2), Some(&20));
    assert_eq!(cell.block(3), Some(&30));
    assert_eq!(cell.block(4), None);
}

static DROPS: AtomicUsize = AtomicUsize::new(0);

#[derive(Clone)]
struct Counted(#[allow(dead_code)] u64);

impl Drop for Counted {
    fn drop(&mut self) {
        DROPS.fetch_add(1, Ordering::Relaxed);
    }
}

#[test]
fn every_block_is_dropped_exactly_once() {
    let mut registry = ReaderRegistry::new();
    let handle = registry.acquire();
    {
        let mut cell: BridgedCell<Counted> = BridgedCell::new();
        for i in 0..100u64 {
            cell.write(Counted(i));
            if i == 50 {
                let r = cell.read_ref(&mut registry, &handle, 0).unwrap();
                cell.write_lazy(Counted(1000), &registry);
                assert_eq!(cell.reclaim(&registry), 50);
                assert_eq!(DROPS.load(Ordering::Relaxed), 50);
                r.release(&mut registry);
            }
        }
        assert_eq!(cell.reclaim(&registry), 50);
        assert_eq!(DROPS.load(Ordering::Relaxed), 100);
    }
    assert_eq!(DROPS.load(Ordering::Relaxed), 101);
}

#[test]
fn hold_stack_keeps_the_lowest_epoch() {
    let mut holds = HoldStack::new();
    assert_eq!(holds.floor(), IDLE);
    let a = holds.push(5);
    let b = holds.push(3);
    let c = holds.push(5);
    assert_eq!((a.epoch(), b.epoch(), c.epoch()), (5, 3, 5));
    assert_eq!(holds.floor(), 3);
    holds.release(b);
    assert_eq!(holds.floor(), 5);
    holds.release(a);
    assert_eq!(holds.floor(), 5);
    holds.release(c);
    assert_eq!(holds.floor(), IDLE);
}

#[test]
fn hold_stack_spills_conservatively() {
    let mut holds = HoldStack::new();
    let kept: Vec<_> = (0..8).map(|i| holds.push(100 + i)).collect();
    let low = holds.push(2);
    let high = holds.push(50);
    assert_eq!(holds.floor(), 2);
    holds.release(low);
    assert_eq!(holds.floor(), 2, "pins longer than necessary, never shorter");
    for hold in kept {
        holds.release(hold);
    }
    assert_eq!(holds.floor(), 2);
    holds.release(high);
    assert_eq!(holds.floor(), IDLE);
}
