use non_blocking_memory::adaptive::{AdaptiveCell, AdaptiveRegistry, COOL_DOWN, SWEEP_PERIOD};
use non_blocking_memory::epoch::ReadResult;
use non_blocking_memory::registry::{HOLD_DEPTH, MAX_READERS};

#[test]
fn adaptive_cold_stays_cold_and_correct() {
    let reg = AdaptiveRegistry::new();
    let mut cell: AdaptiveCell<u64> = AdaptiveCell::new();

    assert_eq!(cell.read(0), ReadResult::Empty);

    let e = cell.write(7, &reg);
    assert_eq!(e, 1);
    assert!(!cell.is_hot());
    match cell.read(0) {
        ReadResult::Value { value, epoch, missed } => {
            assert_eq!(value, 7);
            assert_eq!(epoch, 1);
            assert_eq!(missed, 0);
        }
        _ => panic!("expected value"),
    }

    for i in 0..100u64 {
        cell.write(i, &reg);
    }
    assert!(!cell.is_hot(), "no demand → must never escalate");
    assert_eq!(cell.epoch(), 101);
    assert_eq!(cell.retired_len(), 0, "cold writes must not allocate blocks");
    assert_eq!(cell.read(0).value(), Some(99));
}

#[test]
fn adaptive_escalates_pins_and_deescalates() {
    let mut reg = AdaptiveRegistry::new();
    let mut cell: AdaptiveCell<[u64; 8]> = AdaptiveCell::new();

    cell.write([1; 8], &reg);

    {
        let handle = reg.acquire();

        // Cold cell: fallback copy + demand signalled.
        let p1 = cell.read_pinned(&mut reg, &handle, 0).unwrap();
        assert!(!p1.is_zero_copy());
        assert_eq!(*p1.get(&cell).unwrap(), [1; 8]);
        p1.release(&mut reg);

        // Writer sees demand on its next write → escalates.
        cell.write([2; 8], &reg);
        assert!(cell.is_hot());

        // Now zero-copy.
        let p2 = cell.read_pinned(&mut reg, &handle, 0).unwrap();
        assert!(p2.is_zero_copy());
        assert_eq!(*p2.get(&cell).unwrap(), [2; 8]);

        // Pinned view stays byte-identical across 50 overwrites.
        for i in 3..53u64 {
            cell.write([i; 8], &reg);
        }
        assert_eq!(*p2.get(&cell).unwrap(), [2; 8], "pinned view must not move under the reader");
        assert_eq!(cell.read(0).value(), Some([52; 8]), "owned read sees latest");
        assert!(cell.retired_len() > 0, "overwrites of a pinned block must retire");

        // Release the pin → everything reclaims.
        p2.release(&mut reg);
        cell.reclaim(&reg);
        assert_eq!(cell.retired_len(), 0);

        // The handle and its demand are given up here.
        reg.release(handle);
    }

    // No demand → writer cools down over COOL_DOWN writes, then flips cold.
    for i in 0..(COOL_DOWN + 2) {
        cell.write([100 + i; 8], &reg);
    }
    assert!(!cell.is_hot(), "demand gone → must de-escalate");
    assert_eq!(cell.retired_len(), 0, "de-escalation sweep must drain retired list");
    assert_eq!(cell.read(0).value(), Some([100 + COOL_DOWN + 1; 8]));

    // And it can escalate again later (no one-way ratchet).
    let handle2 = reg.acquire();
    let _ = cell.read_pinned(&mut reg, &handle2, 0).unwrap();
    cell.write([777; 8], &reg);
    assert!(cell.is_hot());
    let p = cell.read_pinned(&mut reg, &handle2, 0).unwrap();
    assert!(p.is_zero_copy());
    assert_eq!(*p.get(&cell).unwrap(), [777; 8]);
}

#[test]
fn adaptive_empty_read_pinned_is_none() {
    let mut reg = AdaptiveRegistry::new();
    let cell: AdaptiveCell<u64> = AdaptiveCell::new();
    let handle = reg.acquire();
    assert!(cell.read_pinned(&mut reg, &handle, 0).is_none());
    // Demand was still signalled: the first write escalates immediately.
    let mut cell = cell;
    cell.write(5, &reg);
    assert!(cell.is_hot());
}

#[test]
fn adaptive_release_demand_with_live_pin_is_safe() {
    let mut reg = AdaptiveRegistry::new();
    let mut cell: AdaptiveCell<[u64; 8]> = AdaptiveCell::new();
    let handle = reg.acquire();

    cell.write([1; 8], &reg);
    let _ = cell.read_pinned(&mut reg, &handle, 0); // demand on
    cell.write([2; 8], &reg); // hot
    let p = cell.read_pinned(&mut reg, &handle, 0).unwrap();
    assert!(p.is_zero_copy());

    // Withdraw demand while the pin is live → cell de-escalates, but the
    // pinned block must survive (floors, not demand, guard memory).
    handle.release_demand(&mut reg);
    for i in 0..(COOL_DOWN + 2) {
        cell.write([10 + i; 8], &reg);
    }
    assert!(!cell.is_hot());
    assert_eq!(*p.get(&cell).unwrap(), [2; 8], "pin must outlive de-escalation");

    p.release(&mut reg);
    cell.reclaim(&reg);
    assert_eq!(cell.retired_len(), 0);
}

#[test]
fn hysteresis_window_is_exact() {
    let mut reg = AdaptiveRegistry::new();
    let mut cell: AdaptiveCell<u64> = AdaptiveCell::new();
    let handle = reg.acquire();
    assert!(cell.read_pinned(&mut reg, &handle, 0).is_none());
    cell.write(0, &reg);
    assert!(cell.is_hot());
    handle.release_demand(&mut reg);
    // COOL_DOWN hot writes without demand, then a cold one.
    for i in 1..=COOL_DOWN {
        cell.write(i, &reg);
        assert!(cell.is_hot());
    }
    cell.write(COOL_DOWN + 1, &reg);
    assert!(!cell.is_hot());
    // A demand seen inside the window starts it over.
    let _ = cell.read_pinned(&mut reg, &handle, 0);
    cell.write(0, &reg);
    handle.release_demand(&mut reg);
    for i in 1..40 {
        cell.write(i, &reg);
    }
    let p = cell.read_pinned(&mut reg, &handle, 0).unwrap();
    p.release(&mut reg);
    cell.write(0, &reg);
    handle.release_demand(&mut reg);
    for i in 1..=COOL_DOWN {
        cell.write(i, &reg);
        assert!(cell.is_hot());
    }
    cell.write(COOL_DOWN + 1, &reg);
    assert!(!cell.is_hot());
}

#[test]
fn deescalation_never_frees_the_head_block() {
    let mut reg = AdaptiveRegistry::new();
    let mut cell: AdaptiveCell<u64> = AdaptiveCell::new();
    let handle = reg.acquire();
    let _ = cell.read_pinned(&mut reg, &handle, 0);
    cell.write(1, &reg);
    handle.release_demand(&mut reg);
    for i in 0..=COOL_DOWN {
        cell.write(100 + i, &reg);
    }
    assert!(!cell.is_hot());
    // The last hot write is still the head of the blocks.
    let raw = cell.bench_read_ref_raw(&mut reg, &handle).unwrap();
    assert_eq!(raw.epoch(), COOL_DOWN + 1);
    assert_eq!(raw.missed(), 0);
    raw.release(&mut reg.floors);
    assert_eq!(cell.read(0).value(), Some(100 + COOL_DOWN));
}

#[test]
fn pinned_read_agrees_with_the_owned_read() {
    let mut reg = AdaptiveRegistry::new();
    let mut wide: AdaptiveCell<u64> = AdaptiveCell::new();
    let mut narrow: AdaptiveCell<u16> = AdaptiveCell::new();
    let handle = reg.acquire();
    assert_eq!((handle.slot_index(), reg.any_demand()), (0, false));
    for i in 1..=3u16 {
        wide.write(i as u64, &reg);
        narrow.write(i, &reg);
        let p = wide.read_pinned(&mut reg, &handle, 1).unwrap();
        assert!(reg.any_demand());
        assert_eq!((p.epoch, p.missed), (i as u64, i.saturating_sub(2) as u64));
        assert_eq!(p.is_zero_copy(), wide.is_hot());
        assert_eq!(p.get(&wide).copied(), wide.read(0).value());
        p.release(&mut reg);
        let p = narrow.read_pinned(&mut reg, &handle, 0).unwrap();
        assert_eq!(p.is_zero_copy(), narrow.is_hot());
        assert_eq!(p.get(&narrow).copied(), narrow.read(0).value());
        p.release(&mut reg);
    }
    assert!(wide.is_hot() && narrow.is_hot());
}

#[test]
fn hot_writes_sweep_periodically() {
    let mut reg = AdaptiveRegistry::new();
    let mut cell: AdaptiveCell<u64> = AdaptiveCell::new();
    let handle = reg.acquire();
    let _ = cell.read_pinned(&mut reg, &handle, 0);
    for i in 1..SWEEP_PERIOD {
        cell.write(i, &reg);
    }
    assert_eq!(cell.retired_len() as u64, SWEEP_PERIOD - 2);
    cell.write(SWEEP_PERIOD, &reg);
    assert_eq!(cell.retired_len(), 0);
    assert_eq!(cell.epoch(), SWEEP_PERIOD);
}

#[test]
fn adaptive_small_values_make_no_blocks() {
    let mut reg = AdaptiveRegistry::new();
    let mut cell: AdaptiveCell<u32> = AdaptiveCell::new();
    let handle = reg.acquire();
    let _ = cell.read_pinned(&mut reg, &handle, 0);
    for i in 0..10 {
        cell.write(i, &reg);
    }
    assert!(cell.is_hot());
    assert_eq!(cell.retired_len(), 0);
    let p = cell.read_pinned(&mut reg, &handle, 4).unwrap();
    assert!(p.is_zero_copy());
    assert_eq!((p.epoch, p.missed), (10, 5));
    cell.write(99, &reg);
    assert_eq!(p.get(&cell), Some(&9));
    assert_eq!(reg.floors.floor_min(), u64::MAX);
}

#[test]
fn several_readers_pin_at_their_own_epochs() {
    let mut reg = AdaptiveRegistry::new();
    let mut cell: AdaptiveCell<u64> = AdaptiveCell::new();
    let slow = reg.acquire();
    let fast = reg.acquire();
    let _ = cell.read_pinned(&mut reg, &slow, 0);
    cell.write(10, &reg);
    let p = cell.read_pinned(&mut reg, &slow, 0).unwrap();
    cell.write(20, &reg);
    let q = cell.read_pinned(&mut reg, &fast, 0).unwrap();
    cell.write(30, &reg);
    assert_eq!(cell.reclaim(&reg), 0);
    assert_eq!((p.get(&cell), q.get(&cell)), (Some(&10), Some(&20)));
    p.release(&mut reg);
    assert_eq!(cell.reclaim(&reg), 1);
    assert_eq!(q.get(&cell), Some(&20));
    q.release(&mut reg);
    assert_eq!(cell.reclaim(&reg), 1);
    assert_eq!(cell.retired_len(), 0);
}

#[test]
fn deep_nesting_pins_conservatively() {
    let mut reg = AdaptiveRegistry::new();
    let mut cell: AdaptiveCell<u64> = AdaptiveCell::new();
    let handle = reg.acquire();
    let _ = cell.read_pinned(&mut reg, &handle, 0);
    let mut views = vec![];
    for i in 0..(HOLD_DEPTH as u64 + 4) {
        cell.write(i, &reg);
        views.push(cell.read_pinned(&mut reg, &handle, 0).unwrap());
    }
    cell.write(1000, &reg);
    assert_eq!(cell.reclaim(&reg), 0);
    for (i, view) in views.iter().enumerate() {
        assert_eq!(view.get(&cell), Some(&(i as u64)));
    }
    // Giving up the recorded views leaves the spilled ones pinned.
    let spilled = views.split_off(HOLD_DEPTH);
    for view in views {
        view.release(&mut reg);
    }
    assert_eq!(cell.reclaim(&reg), HOLD_DEPTH);
    for (i, view) in spilled.iter().enumerate() {
        assert_eq!(view.get(&cell), Some(&((HOLD_DEPTH + i) as u64)));
    }
    for view in spilled {
        view.release(&mut reg);
    }
    cell.reclaim(&reg);
    assert_eq!(cell.retired_len(), 0);
}

#[test]
fn slots_are_not_recycled() {
    let mut reg = AdaptiveRegistry::default();
    for i in 0..MAX_READERS {
        assert_eq!((reg.acquired(), reg.floors.acquired()), (i, i));
        let handle = reg.acquire();
        reg.release(handle);
    }
    assert_eq!(reg.floors.acquired(), MAX_READERS);
    assert!(!reg.any_demand());
}

#[test]
fn mode_flapping_keeps_every_view_intact() {
    let mut reg = AdaptiveRegistry::new();
    let mut cell: AdaptiveCell<[u64; 4]> = AdaptiveCell::default();
    let handle = reg.acquire();
    let mut held = Vec::new();
    let mut last = 0u64;
    for i in 1..=20_000u64 {
        assert_eq!(cell.write([i; 4], &reg), i);
        if i % 64 == 3 {
            let p = cell.read_pinned(&mut reg, &handle, last).unwrap();
            assert_eq!(*p.get(&cell).unwrap(), [i; 4]);
            assert!(p.epoch >= last);
            last = p.epoch;
            held.push((i, p));
        }
        if i % 256 == 7 {
            handle.release_demand(&mut reg);
        }
        if held.len() > 5 {
            let (at, p) = held.remove(0);
            assert_eq!(*p.get(&cell).unwrap(), [at; 4]);
            p.release(&mut reg);
        }
        if i % 500 == 0 {
            cell.reclaim(&reg);
        }
    }
    for (at, p) in held {
        assert_eq!(*p.get(&cell).unwrap(), [at; 4]);
        p.release(&mut reg);
    }
    assert_eq!(cell.read(0).value(), Some([20_000; 4]));
    assert_eq!(cell.epoch(), 20_000);
    cell.reclaim(&reg);
    assert_eq!(cell.retired_len(), 0);
}
