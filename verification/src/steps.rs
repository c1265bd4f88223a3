//! The operations of the bridged cell, its readers and the queue, as steps of the
//! interleaving models.
//!
//! A reader takes a view by `announce`, a look at the head and `hold`, or breaks off by
//! `settle`; between any two of these the writer may write and sweep. Each of them, and
//! each operation of the writer, is shown here to be a step of [`Pinning`], or a few of
//! them, so that what holds of all interleavings of those steps holds of the operations.
//! Likewise a push or a pop is three steps of [`Passing`].
//!
//! [`Pinning`]: crate::interleave::Pinning
//! [`Passing`]: crate::interleave::Passing
use vstd::prelude::*;

verus! {

/// The epochs of the retired blocks.
pub open spec fn retired_epochs<T>(cell: crate::bridge::BridgeView<T>) -> Set<int> {
    Set::new(
        |e: int|
            exists|i: int| 0 <= i < cell.retired.len() && (#[trigger] cell.retired[i]).epoch == e,
    )
}

/// The epochs of the views that the reader of a slot holds.
pub open spec fn held_epochs<T>(s: crate::sharing::Shared<T>, slot: int) -> Set<int> {
    Set::new(|e: int| 0 <= e <= u64::MAX && s.holds(slot, e as u64))
}

/// What the writer and the reader of a slot share, given how far each has come with
/// what it is doing.
pub open spec fn pinning<T>(
    s: crate::sharing::Shared<T>,
    slot: int,
    reader: crate::interleave::Phase,
    sweep: Option<int>,
    lazy: crate::interleave::Superseded,
) -> crate::interleave::Pinning {
    crate::interleave::Pinning {
        head: s.cell.epoch as int,
        retired: retired_epochs(s.cell),
        registered: s.registry.owns(slot),
        floor: s.registry.floors[slot] as int,
        held: held_epochs(s, slot),
        reader,
        sweep,
        lazy,
    }
}

/// The same, with the writer between two operations.
pub open spec fn at_rest<T>(
    s: crate::sharing::Shared<T>,
    slot: int,
    reader: crate::interleave::Phase,
) -> crate::interleave::Pinning {
    pinning(s, slot, reader, None, crate::interleave::Superseded::Settled)
}

/// The floor of an account covers all views in it.
proof fn lemma_floor_covers<T>(s: crate::sharing::Shared<T>, slot: int)
    requires
        0 <= slot < crate::registry::MAX_READERS,
        s.registry.holds[slot].accounts_for(s.recorded[slot], s.spilled[slot]),
    ensures
        crate::interleave::covers(s.registry.holds[slot].floor() as int, held_epochs(s, slot)),
{
    assert forall|e: int| #[trigger] held_epochs(s, slot).contains(e) implies s.registry.holds[slot].floor()
        <= e by {
        crate::registry::law_floor_covers_every_view(
            s.registry.holds[slot],
            s.recorded[slot],
            s.spilled[slot],
            e as u64,
        );
    }
}

/// `announce`, the look at the head and `hold` are the three steps of taking a view,
/// and `settle` breaks off after the first, whatever the writer is doing meanwhile. The
/// epoch that is held need not be that of the head any more.
pub proof fn law_taking_a_view_is_modelled<T>(
    s: crate::sharing::Shared<T>,
    slot: int,
    epoch: u64,
    sweep: Option<int>,
    lazy: crate::interleave::Superseded,
)
    requires
        s.sound(),
        s.registry.owns(slot),
        epoch >= 1,
    ensures
        crate::interleave::takes_view(
            pinning(s, slot, crate::interleave::Phase::Idle, sweep, lazy),
            pinning(
                s.stepped(crate::sharing::Op::Announce(slot)),
                slot,
                crate::interleave::Phase::Announced,
                sweep,
                lazy,
            ),
        ),
        crate::interleave::takes_view(
            pinning(s, slot, crate::interleave::Phase::Announced, sweep, lazy),
            pinning(s, slot, crate::interleave::Phase::Saw(s.cell.epoch as int), sweep, lazy),
        ),
        crate::interleave::takes_view(
            pinning(s, slot, crate::interleave::Phase::Saw(epoch as int), sweep, lazy),
            pinning(
                s.held_at(slot, epoch),
                slot,
                crate::interleave::Phase::Idle,
                sweep,
                lazy,
            ),
        ),
        crate::interleave::breaks_off(
            pinning(s, slot, crate::interleave::Phase::Announced, sweep, lazy),
            pinning(
                s.stepped(crate::sharing::Op::Settle(slot)),
                slot,
                crate::interleave::Phase::Idle,
                sweep,
                lazy,
            ),
        ),
{
    broadcast use vstd::multiset::group_multiset_axioms;

    assert(s.registry.holds[slot].accounts_for(s.recorded[slot], s.spilled[slot]));
    let announced = s.stepped(crate::sharing::Op::Announce(slot));
    assert(held_epochs(announced, slot) =~= held_epochs(s, slot));
    let held = s.held_at(slot, epoch);
    crate::registry::law_hold_adds_one_view(
        s.registry.holds[slot],
        s.recorded[slot],
        s.spilled[slot],
        epoch,
    );
    assert(held_epochs(held, slot) =~= held_epochs(s, slot).insert(epoch as int));
    lemma_floor_covers(held, slot);
    let settled = s.stepped(crate::sharing::Op::Settle(slot));
    assert(held_epochs(settled, slot) =~= held_epochs(s, slot));
    lemma_floor_covers(s, slot);
}

/// The `release` of a view or of a slot gives views up, whatever the writer is doing
/// meanwhile.
pub proof fn law_giving_up_is_modelled<T>(
    s: crate::sharing::Shared<T>,
    slot: int,
    op: crate::sharing::Op<T>,
    sweep: Option<int>,
    lazy: crate::interleave::Superseded,
)
    requires
        !crate::bridge::blockless::<T>(),
        s.sound(),
        s.allows(op),
        op matches crate::sharing::Op::GiveUp(at, _, _) && at == slot || op
            == crate::sharing::Op::<T>::Leave(slot),
    ensures
        crate::interleave::gives_up(
            pinning(s, slot, crate::interleave::Phase::Idle, sweep, lazy),
            pinning(s.stepped(op), slot, crate::interleave::Phase::Idle, sweep, lazy),
        ),
{
    broadcast use vstd::multiset::group_multiset_axioms;

    let t = s.stepped(op);
    crate::sharing::law_operations_keep_soundness(s, op);
    assert(t.registry.holds[slot].accounts_for(t.recorded[slot], t.spilled[slot]));
    lemma_floor_covers(t, slot);
    assert forall|e: int| #[trigger]
        held_epochs(t, slot).contains(e) implies held_epochs(s, slot).contains(e) by {
        assert(t.holds(slot, e as u64));
        assert(s.holds(slot, e as u64));
    }
}

/// `acquire` registers the reader of the slot that it hands out.
pub proof fn law_acquiring_is_modelled<T>(
    s: crate::sharing::Shared<T>,
    sweep: Option<int>,
    lazy: crate::interleave::Superseded,
)
    requires
        s.sound(),
        s.allows(crate::sharing::Op::<T>::Acquire),
    ensures
        crate::interleave::registers(
            pinning(
                s,
                s.registry.acquired as int,
                crate::interleave::Phase::Idle,
                sweep,
                lazy,
            ),
            pinning(
                s.stepped(crate::sharing::Op::Acquire),
                s.registry.acquired as int,
                crate::interleave::Phase::Idle,
                sweep,
                lazy,
            ),
        ),
{
    let slot = s.registry.acquired as int;
    let t = s.stepped(crate::sharing::Op::<T>::Acquire);
    assert(held_epochs(t, slot) =~= held_epochs(s, slot));
}

/// What one reader does leaves what the writer shares with another one alone.
pub proof fn law_readers_do_not_interfere<T>(
    s: crate::sharing::Shared<T>,
    op: crate::sharing::Op<T>,
    slot: int,
    other: int,
    reader: crate::interleave::Phase,
    sweep: Option<int>,
    lazy: crate::interleave::Superseded,
)
    requires
        s.sound(),
        s.allows(op),
        0 <= slot < crate::registry::MAX_READERS,
        0 <= other < crate::registry::MAX_READERS,
        slot != other,
        match op {
            crate::sharing::Op::Acquire => slot == s.registry.acquired,
            crate::sharing::Op::Announce(at) => at == slot,
            crate::sharing::Op::Settle(at) => at == slot,
            crate::sharing::Op::Take(at) => at == slot,
            crate::sharing::Op::GiveUp(at, _, _) => at == slot,
            crate::sharing::Op::Leave(at) => at == slot,
            _ => false,
        },
    ensures
        pinning(s.stepped(op), other, reader, sweep, lazy) == pinning(
            s,
            other,
            reader,
            sweep,
            lazy,
        ),
{
    let t = s.stepped(op);
    assert(held_epochs(t, other) =~= held_epochs(s, other));
}

/// The first write makes the block that the model starts from.
pub proof fn law_first_write_starts_the_model<T>(value: T, slot: int)
    requires
        0 <= slot < crate::registry::MAX_READERS,
    ensures
        at_rest(
            crate::sharing::Shared::<T>::initial().stepped(crate::sharing::Op::Write(value)),
            slot,
            crate::interleave::Phase::Idle,
        ).initial(),
{
    let t = crate::sharing::Shared::<T>::initial().stepped(crate::sharing::Op::Write(value));
    assert(retired_epochs(t.cell) =~= Set::empty());
    assert(held_epochs(t, slot) =~= Set::empty()) by {
        broadcast use vstd::multiset::group_multiset_axioms;

    }
}

proof fn lemma_retiring_adds_the_head<T>(cell: crate::bridge::BridgeView<T>, value: T)
    requires
        cell.head_is_block(),
    ensures
        retired_epochs(cell.wrote(value)) == retired_epochs(cell).insert(cell.epoch as int),
{
    let after = cell.wrote(value);
    let n = cell.retired.len() as int;
    assert(after.retired[n].epoch == cell.epoch);
    assert forall|e: int| #[trigger]
        retired_epochs(after).contains(e) <==> retired_epochs(cell).insert(
            cell.epoch as int,
        ).contains(e) by {
        if retired_epochs(after).contains(e) {
            let i = choose|i: int| 0 <= i < after.retired.len() && after.retired[i].epoch == e;
            if i < n {
                assert(cell.retired[i].epoch == e);
            }
        }
        if retired_epochs(cell).contains(e) {
            let i = choose|i: int| 0 <= i < n && cell.retired[i].epoch == e;
            assert(after.retired[i].epoch == e);
        }
    }
    assert(retired_epochs(after) =~= retired_epochs(cell).insert(cell.epoch as int));
}

/// `write` is one step: the new head is in place and the old one is retired.
pub proof fn law_writing_is_modelled<T>(
    s: crate::sharing::Shared<T>,
    slot: int,
    reader: crate::interleave::Phase,
    value: T,
)
    requires
        !crate::bridge::blockless::<T>(),
        s.sound(),
        s.allows(crate::sharing::Op::Write(value)),
        s.cell.epoch > 0,
        0 <= slot < crate::registry::MAX_READERS,
    ensures
        crate::interleave::writes(
            at_rest(s, slot, reader),
            at_rest(s.stepped(crate::sharing::Op::Write(value)), slot, reader),
        ),
{
    let t = s.stepped(crate::sharing::Op::Write(value));
    lemma_retiring_adds_the_head(s.cell, value);
    assert(held_epochs(t, slot) =~= held_epochs(s, slot));
}

/// `write_lazy` is a few steps: the new head is in place; then the superseded block is
/// freed, if no slot was ever handed out or all floors lie above it, and retired
/// otherwise.
pub proof fn law_writing_lazily_is_modelled<T>(
    s: crate::sharing::Shared<T>,
    slot: int,
    reader: crate::interleave::Phase,
    value: T,
)
    requires
        !crate::bridge::blockless::<T>(),
        s.sound(),
        s.allows(crate::sharing::Op::WriteLazy(value)),
        s.cell.epoch > 0,
        0 <= slot < crate::registry::MAX_READERS,
    ensures
        ({
            let p = at_rest(s, slot, reader);
            let t = at_rest(s.stepped(crate::sharing::Op::WriteLazy(value)), slot, reader);
            let epoch = s.cell.epoch as int;
            let pending = crate::interleave::Pinning {
                head: epoch + 1,
                lazy: crate::interleave::Superseded::Pending(epoch),
                ..p
            };
            let doomed = crate::interleave::Pinning {
                lazy: crate::interleave::Superseded::Doomed(epoch),
                ..pending
            };
            &&& crate::interleave::writes_lazily(p, pending)
            &&& if s.registry.acquired == 0 || s.registry.floor_min() > epoch {
                crate::interleave::dooms(pending, doomed) && crate::interleave::frees_superseded(
                    doomed,
                    t,
                )
            } else {
                crate::interleave::retires_superseded(pending, t)
            }
        }),
{
    let t = s.stepped(crate::sharing::Op::WriteLazy(value));
    assert(held_epochs(t, slot) =~= held_epochs(s, slot));
    crate::registry::law_lowest_is_the_minimum(s.registry.floors);
    assert(s.registry.floor_min() <= s.registry.floors[slot]);
    if s.registry.acquired == 0 || s.registry.floor_min() > s.cell.epoch {
        assert(retired_epochs(t.cell) =~= retired_epochs(s.cell));
    } else {
        lemma_retiring_adds_the_head(s.cell, value);
    }
}

/// `reclaim` is two steps: it goes through the floors, then frees what lies below the
/// lowest.
pub proof fn law_sweeping_is_modelled<T>(
    s: crate::sharing::Shared<T>,
    slot: int,
    reader: crate::interleave::Phase,
)
    requires
        s.sound(),
        0 <= slot < crate::registry::MAX_READERS,
    ensures
        ({
            let p = at_rest(s, slot, reader);
            let scanned = crate::interleave::Pinning {
                sweep: Some(s.registry.floor_min() as int),
                ..p
            };
            &&& crate::interleave::scans(p, scanned)
            &&& crate::interleave::frees(
                scanned,
                at_rest(s.stepped(crate::sharing::Op::<T>::Reclaim), slot, reader),
            )
        }),
{
    let floor = s.registry.floor_min();
    let t = s.stepped(crate::sharing::Op::<T>::Reclaim);
    assert(held_epochs(t, slot) =~= held_epochs(s, slot));
    crate::registry::law_lowest_is_the_minimum(s.registry.floors);
    assert(floor <= s.registry.floors[slot]);
    let k = crate::bridge::lemma_sweep_is_suffix(s.cell, floor);
    let kept = retired_epochs(s.cell).filter(|e: int| e >= floor);
    assert forall|e: int| #[trigger] retired_epochs(t.cell).contains(e) <==> kept.contains(e) by {
        if retired_epochs(t.cell).contains(e) {
            let i = choose|i: int| 0 <= i < t.cell.retired.len() && t.cell.retired[i].epoch == e;
            assert(s.cell.retired[i + k].epoch == e);
        }
        if kept.contains(e) {
            let i = choose|i: int| 0 <= i < s.cell.retired.len() && s.cell.retired[i].epoch == e;
            assert(t.cell.retired[i - k].epoch == e);
        }
    }
    assert(retired_epochs(t.cell) =~= kept);
}

/// Whether a state of the model is that of a queue of `n` slots at rest through which
/// this traffic has gone.
pub open spec fn passing_of<T>(
    p: crate::interleave::Passing<T>,
    traffic: crate::queue::Traffic<T>,
    n: nat,
) -> bool {
    &&& p.orderly()
    &&& p.slots.len() == n
    &&& p.producer is Resting
    &&& p.consumer is Resting
    &&& p.sent == traffic.accepted
    &&& p.received == traffic.delivered
    &&& traffic.accepted == traffic.delivered + traffic.waiting
}

/// A push that finds room is three steps of the producer; one that finds none is stopped
/// at the first.
pub proof fn law_pushing_is_modelled<T>(
    p: crate::interleave::Passing<T>,
    traffic: crate::queue::Traffic<T>,
    n: nat,
    value: T,
)
    requires
        passing_of(p, traffic, n),
    ensures
        ({
            let found = crate::interleave::Passing {
                producer: crate::interleave::Producing::FoundRoom,
                ..p
            };
            let filled = crate::interleave::Passing {
                slots: p.slots.update(p.tail % (n as int), value),
                sent: p.sent.push(value),
                producer: crate::interleave::Producing::Filled,
                ..p
            };
            let done = crate::interleave::Passing {
                tail: p.tail + 1,
                producer: crate::interleave::Producing::Resting,
                ..filled
            };
            if crate::queue::has_room(traffic.waiting, n) {
                &&& crate::interleave::pushes(p, found)
                &&& crate::interleave::pushes(found, filled)
                &&& crate::interleave::pushes(filled, done)
                &&& passing_of(done, traffic.then_op(n, crate::queue::QueueOp::Push(value)), n)
            } else {
                &&& forall|q: crate::interleave::Passing<T>| !crate::interleave::pushes(p, q)
                &&& passing_of(p, traffic.then_op(n, crate::queue::QueueOp::Push(value)), n)
            }
        }),
{
    assert(traffic.waiting.len() == p.tail - p.head);
    if crate::queue::has_room(traffic.waiting, n) {
        let found = crate::interleave::Passing {
            producer: crate::interleave::Producing::FoundRoom,
            ..p
        };
        let slots = found.slots.update(found.tail % (n as int), value);
        crate::interleave::lemma_fill_spares_waiting_items(found, value);
        let next = traffic.then_op(n, crate::queue::QueueOp::Push(value));
        assert(next.accepted =~= next.delivered + next.waiting);
        assert(p.sent.push(value).take(p.head) =~= p.sent.take(p.head));
    }
}

/// A pop that finds an item is three steps of the consumer; one that finds none is
/// stopped at the first.
pub proof fn law_popping_is_modelled<T>(
    p: crate::interleave::Passing<T>,
    traffic: crate::queue::Traffic<T>,
    n: nat,
)
    requires
        passing_of(p, traffic, n),
    ensures
        ({
            let found = crate::interleave::Passing {
                consumer: crate::interleave::Consuming::FoundItem,
                ..p
            };
            let item = p.slots[p.head % (n as int)];
            let took = crate::interleave::Passing {
                consumer: crate::interleave::Consuming::Took(item),
                ..p
            };
            let done = crate::interleave::Passing {
                received: p.received.push(item),
                head: p.head + 1,
                ..p
            };
            if traffic.waiting.len() > 0 {
                &&& crate::interleave::pops(p, found)
                &&& crate::interleave::pops(found, took)
                &&& crate::interleave::pops(took, done)
                &&& passing_of(done, traffic.then_op(n, crate::queue::QueueOp::Pop), n)
            } else {
                &&& forall|q: crate::interleave::Passing<T>| !crate::interleave::pops(p, q)
                &&& passing_of(p, traffic.then_op(n, crate::queue::QueueOp::Pop), n)
            }
        }),
{
    assert(traffic.waiting.len() == p.tail - p.head);
    if traffic.waiting.len() > 0 {
        assert(p.sent[p.head] == traffic.waiting[0]);
        let next = traffic.then_op(n, crate::queue::QueueOp::Pop);
        assert(next.accepted =~= next.delivered + next.waiting);
        assert(p.sent.take(p.head + 1) =~= p.sent.take(p.head).push(p.sent[p.head]));
    }
}

} // verus!
