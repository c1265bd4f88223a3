use non_blocking_memory::double_buffer::DoubleBuffer;
use non_blocking_memory::epoch::ReadResult;
use non_blocking_memory::queue::SpscQueue;
use non_blocking_memory::seqlock::{
    begin_word, commit_word, ctrl_epoch, ctrl_fresh, ctrl_hot, ctrl_in_progress, owned_confirms,
    owned_first, pinned_confirms, pinned_first, OwnedStep, PinnedStep, SeqCell,
};
use non_blocking_memory::workload::make_payload;

#[test]
fn seq_cell_publishes_the_latest_value() {
    let mut cell = SeqCell::<[u64; 16]>::new();
    assert_eq!(cell.read(0), ReadResult::Empty);
    assert_eq!(cell.read_unprotected(), ReadResult::Empty);
    assert_eq!(cell.write([0xAA; 16]).epoch, 1);
    assert_eq!(cell.read(0), ReadResult::Value { value: [0xAA; 16], epoch: 1, missed: 0 });
    for i in 2..=6u64 {
        cell.write([i; 16]);
    }
    assert_eq!(cell.read(1), ReadResult::Value { value: [6; 16], epoch: 6, missed: 4 });
    assert_eq!(
        cell.read_unprotected(),
        ReadResult::Value { value: [6; 16], epoch: 6, missed: 0 }
    );
    assert_eq!(cell.epoch(), 6);
}

#[test]
fn control_word_layout() {
    assert_eq!(begin_word(0, false), 2);
    assert_eq!(begin_word(0, true), 3);
    assert_eq!(commit_word(0, false), 4);
    assert_eq!(commit_word(5, true), 9);
    assert_eq!(begin_word(5, false), 6);
    assert_eq!(ctrl_epoch(0b1011), 2);
    assert!(ctrl_hot(0b1011) && ctrl_in_progress(0b1011));
    assert!(!ctrl_hot(0b100) && !ctrl_in_progress(0b101));
    assert!(ctrl_fresh(0) && ctrl_fresh(1) && !ctrl_fresh(2) && !ctrl_fresh(4));
}

#[test]
fn reader_steps() {
    assert_eq!(owned_first(0), OwnedStep::Empty);
    assert_eq!(owned_first(2), OwnedStep::Restart);
    assert_eq!(owned_first(3), OwnedStep::Restart);
    assert_eq!(owned_first(4), OwnedStep::Copy);
    assert_eq!(owned_first(5), OwnedStep::Copy);
    assert!(owned_confirms(4, 4));
    assert!(!owned_confirms(4, 5) && !owned_confirms(4, 8));

    assert_eq!(pinned_first(1), PinnedStep::Empty);
    assert_eq!(pinned_first(6), PinnedStep::Restart);
    assert_eq!(pinned_first(7), PinnedStep::Restart);
    assert_eq!(pinned_first(5), PinnedStep::PinHead);
    assert_eq!(pinned_first(4), PinnedStep::Copy);
    assert!(pinned_confirms(5, 9) && pinned_confirms(5, 7));
    assert!(!pinned_confirms(5, 6));
    assert!(pinned_confirms(4, 4) && !pinned_confirms(4, 8));
}

#[test]
fn queue_is_first_in_first_out() {
    let mut q: SpscQueue<u64, 1024> = SpscQueue::new();
    q.push(42).unwrap();
    assert_eq!(q.pop(), Some(42));
    assert_eq!(q.pop(), None);

    let mut q: SpscQueue<String, 3> = SpscQueue::new();
    for round in 0..10 {
        for i in 0..3 {
            assert_eq!(q.push(format!("{round}/{i}")), Ok(()));
        }
        assert_eq!(q.push(String::from("refused")), Err(String::from("refused")));
        assert_eq!(q.len(), 3);
        assert_eq!(q.pop(), Some(format!("{round}/0")));
        q.push(String::from("extra")).unwrap();
        assert_eq!(q.pop(), Some(format!("{round}/1")));
        assert_eq!(q.pop(), Some(format!("{round}/2")));
        assert_eq!(q.pop(), Some(String::from("extra")));
        assert_eq!(q.pop(), None);
    }
}

#[test]
fn queue_of_one() {
    let mut q: SpscQueue<u8, 1> = SpscQueue::new();
    for i in 0..7 {
        assert_eq!(q.push(i), Ok(()));
        assert_eq!(q.push(i), Err(i));
        assert_eq!(q.pop(), Some(i));
        assert_eq!(q.pop(), None);
    }
}

#[test]
fn double_buffer_swaps_at_frame_boundaries() {
    let mut db: DoubleBuffer<Vec<u64>> = DoubleBuffer::new(vec![]);
    let back = db.back_mut();
    back.clear();
    back.push(1);
    back.push(2);
    back.push(3);
    assert!(db.read().is_empty());
    db.publish();
    assert_eq!(*db.read(), vec![1, 2, 3]);
    db.write(vec![4]);
    assert_eq!(*db.read(), vec![4]);
    assert_eq!(*db.back_mut(), vec![1, 2, 3]);
    db.publish();
    db.publish();
    assert_eq!(*db.read(), vec![4]);
}

#[test]
fn payload_counts_up_and_wraps() {
    let p = make_payload(5);
    assert_eq!(p.len(), 128);
    assert_eq!((p[0], p[1], p[127]), (5, 6, 132));
    let p = make_payload(u64::MAX);
    assert_eq!((p[0], p[1]), (u64::MAX, 0));
}
