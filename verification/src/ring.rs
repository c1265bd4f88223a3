//! `Ring`: an explicit window over the last N writes.
//!
//! Use it when several readers each need their own stable value, independently of
//! what the writer has moved on to. Each slot is one cell; the writer cycles
//! through the slots under one shared epoch, and a reader picks the slot with the
//! epoch it needs.
use crate::cell::{Cell, Entry};
use crate::epoch::{ReadResult, WriteResult};
use crate::payload::Payload;
use vstd::prelude::*;

verus! {

/// The state of a ring: its number of slots and everything ever written to it.
#[verifier::ext_equal]
pub struct RingView<T> {
    pub slots: nat,
    pub log: Seq<T>,
}

impl<T> RingView<T> {
    /// Whether the write with this epoch is still in the ring.
    pub open spec fn retains(self, epoch: int) -> bool {
        1 <= epoch <= self.log.len() && self.log.len() - self.slots < epoch
    }

    /// The highest epoch written that is at most `target`.
    pub open spec fn best(self, target: int) -> int {
        if target <= self.log.len() {
            target
        } else {
            self.log.len() as int
        }
    }

    /// The state after one more write or append.
    pub open spec fn wrote(self, value: T) -> Self {
        RingView { slots: self.slots, log: self.log.push(value) }
    }

    /// The state after a run of writes and appends.
    pub open spec fn wrote_all(self, values: Seq<T>) -> Self {
        RingView { slots: self.slots, log: self.log + values }
    }
}

/// The epoch of slot `i` when `len` writes have been made and the next one goes
/// to slot `pos`; not positive if the slot has not been written.
spec fn slot_epoch(len: int, pos: int, n: int, i: int) -> int {
    if i < pos {
        len - (pos - 1 - i)
    } else {
        len - (pos - 1 - i + n)
    }
}

/// A fixed number of cells that the writer cycles through.
pub struct Ring<'a, T> {
    cells: Vec<Cell<'a, T>>,
    write_pos: usize,
    /// Shared monotonic epoch across all cells.
    ring_epoch: u64,
    log: Ghost<Seq<T>>,
}

impl<'a, T> View for Ring<'a, T> {
    type V = RingView<T>;

    closed spec fn view(&self) -> RingView<T> {
        RingView { slots: self.cells@.len(), log: self.log@ }
    }
}

impl<'a, T: Payload> Ring<'a, T> {
    spec fn slot_ok(self, i: int) -> bool {
        let cell = self.cells@[i];
        let epoch = slot_epoch(
            self.log@.len() as int,
            self.write_pos as int,
            self.cells@.len() as int,
            i,
        );
        &&& cell.wf()
        &&& epoch <= 0 ==> cell@.epoch == 0 && !cell@.readable()
        &&& epoch > 0 ==> {
            &&& cell@.epoch == epoch
            &&& cell@.readable()
            &&& cell@.current() == self.log@[epoch - 1]
        }
    }

    /// There is a slot, and the slots are in order.
    pub open spec fn wf(self) -> bool {
        self@.slots >= 1 && self.in_order()
    }

    /// The writer's position and epoch follow from the number of writes; each slot
    /// holds the newest write that fell on it.
    pub closed spec fn in_order(self) -> bool {
        &&& self.ring_epoch == self.log@.len()
        &&& self.write_pos == self.log@.len() % self.cells@.len()
        &&& forall|i: int| 0 <= i < self.cells@.len() ==> #[trigger] self.slot_ok(i)
    }

    /// The blocks reachable from a slot, newest first.
    pub closed spec fn history(self, slot: int) -> Seq<Entry<T>> {
        self.cells@[slot]@.history()
    }

    /// The slot the next write goes to.
    pub open spec fn next_slot(self) -> int {
        self@.log.len() as int % self@.slots as int
    }

    /// A ring of `n` empty slots.
    pub fn new(n: usize) -> (ring: Self)
        requires
            n >= 1,
        ensures
            ring.wf(),
            ring@ == (RingView { slots: n as nat, log: Seq::<T>::empty() }),
            forall|i: int| 0 <= i < n ==> (#[trigger] ring.history(i)) == Seq::<Entry<T>>::empty(),
    {
        let mut cells: Vec<Cell<'a, T>> = Vec::new();
        let mut i: usize = 0;
        while i < n
            invariant
                i <= n,
                cells@.len() == i,
                forall|k: int|
                    0 <= k < i ==> (#[trigger] cells@[k]).wf() && cells@[k]@.epoch == 0
                        && !cells@[k]@.readable() && cells@[k]@.history() == Seq::<Entry<T>>::empty(),
            decreases n - i,
        {
            cells.push(Cell::new());
            i = i + 1;
        }
        let ring = Ring { cells, write_pos: 0, ring_epoch: 0, log: Ghost(Seq::empty()) };
        proof {
            vstd::arithmetic::div_mod::lemma_small_mod(0, n as nat);
            assert forall|k: int| 0 <= k < n implies #[trigger] ring.slot_ok(k) by {
                assert(ring.cells@[k].wf());
            }
        }
        ring
    }

    /// Append an immutable value under the shared epoch. The slot's older blocks
    /// stay behind the new one.
    pub fn append(&mut self, value: T) -> (result: WriteResult)
        requires
            old(self).wf(),
            old(self)@.log.len() < u64::MAX,
        ensures
            final(self).wf(),
            final(self)@ == old(self)@.wrote(value),
            result.epoch == final(self)@.log.len(),
            forall|i: int|
                0 <= i < final(self)@.slots ==> (#[trigger] final(self).history(i)) == (if i
                    == old(self).next_slot() {
                    seq![Entry { value, epoch: result.epoch }] + old(self).history(i)
                } else {
                    old(self).history(i)
                }),
    {
        let pos = self.write_pos;
        proof {
            vstd::arithmetic::div_mod::lemma_mod_bound(
                self.log@.len() as int,
                self.cells@.len() as int,
            );
            assert(self.slot_ok(pos as int));
        }
        self.ring_epoch = self.ring_epoch + 1;
        let epoch = self.ring_epoch;
        let result = self.cells[pos].append_with_epoch(value, epoch);
        assert forall|i: int| 0 <= i < self.cells@.len() && i != pos implies #[trigger] self.slot_ok(
            i,
        ) by {
            assert(old(self).slot_ok(i));
        }
        self.advance(Ghost(value));
        result
    }

    /// Write a mutable value under the shared epoch. The slot forgets its older
    /// blocks.
    pub fn write(&mut self, value: T) -> (result: WriteResult)
        requires
            old(self).wf(),
            old(self)@.log.len() < u64::MAX,
        ensures
            final(self).wf(),
            final(self)@ == old(self)@.wrote(value),
            result.epoch == final(self)@.log.len(),
            forall|i: int|
                0 <= i < final(self)@.slots ==> (#[trigger] final(self).history(i)) == (if i
                    == old(self).next_slot() {
                    if T::inline() {
                        Seq::empty()
                    } else {
                        seq![Entry { value, epoch: result.epoch }]
                    }
                } else {
                    old(self).history(i)
                }),
    {
        let pos = self.write_pos;
        proof {
            vstd::arithmetic::div_mod::lemma_mod_bound(
                self.log@.len() as int,
                self.cells@.len() as int,
            );
            assert(self.slot_ok(pos as int));
        }
        self.ring_epoch = self.ring_epoch + 1;
        let epoch = self.ring_epoch;
        let result = self.cells[pos].write_with_epoch(value, epoch);
        assert forall|i: int| 0 <= i < self.cells@.len() && i != pos implies #[trigger] self.slot_ok(
            i,
        ) by {
            assert(old(self).slot_ok(i));
        }
        self.advance(Ghost(value));
        result
    }

    /// Move on to the next slot, once the slot at the writer's position holds
    /// `value` under the ring's epoch.
    fn advance(&mut self, Ghost(value): Ghost<T>)
        requires
            old(self).cells@.len() >= 1,
            old(self).ring_epoch == old(self).log@.len() + 1,
            old(self).write_pos == old(self).log@.len() % old(self).cells@.len(),
            forall|i: int|
                0 <= i < old(self).cells@.len() && i != old(self).write_pos
                    ==> #[trigger] old(self).slot_ok(i),
            ({
                let cell = old(self).cells@[old(self).write_pos as int];
                cell.wf() && cell@.readable() && cell@.epoch == old(self).ring_epoch
                    && cell@.current() == value
            }),
        ensures
            final(self).wf(),
            final(self)@ == old(self)@.wrote(value),
            final(self).ring_epoch == old(self).ring_epoch,
            final(self).cells@ == old(self).cells@,
    {
        let n = self.cells.len();
        let ghost len = self.log@.len() as int;
        let pos = self.write_pos;
        proof {
            vstd::arithmetic::div_mod::lemma_mod_bound(len, n as int);
            vstd::arithmetic::div_mod::lemma_add_mod_noop(len, 1, n as int);
            self.log@ = self.log@.push(value);
            if n == 1 {
                assert((len + 1) % 1 == 0);
            } else {
                vstd::arithmetic::div_mod::lemma_small_mod(1, n as nat);
            }
        }
        self.write_pos = (self.write_pos + 1) % n;
        proof {
            if pos + 1 == n {
                vstd::arithmetic::div_mod::lemma_mod_self_0(n as int);
            } else {
                vstd::arithmetic::div_mod::lemma_small_mod((pos + 1) as nat, n as nat);
            }
            assert forall|i: int| 0 <= i < n implies #[trigger] self.slot_ok(i) by {
                if i != pos {
                    assert(old(self).slot_ok(i));
                }
            }
        }
    }

    /// Read from the most recently written slot.
    pub fn read(&self, last_epoch: u64) -> (result: ReadResult<T>) where T: Clone
        requires
            self.wf(),
            self@.log.len() > 0 ==> last_epoch < u64::MAX,
        ensures
            match result {
                ReadResult::Empty => self@.log.len() == 0,
                ReadResult::Value { value, epoch, missed } => {
                    &&& self@.log.len() > 0
                    &&& epoch == self@.log.len()
                    &&& missed == crate::epoch::missed_between(epoch as int, last_epoch as int)
                    &&& cloned(self@.log.last(), value)
                },
            },
    {
        let n = self.cells.len();
        proof {
            vstd::arithmetic::div_mod::lemma_mod_bound(self.log@.len() as int, n as int);
        }
        let idx: usize = if self.write_pos == 0 {
            n - 1
        } else {
            self.write_pos - 1
        };
        assert(self.slot_ok(idx as int));
        self.cells[idx].read(last_epoch)
    }

    /// Read the slot whose epoch best matches `target_epoch`: the highest one
    /// that is at most `target_epoch`.
    pub fn read_at_epoch(&self, target_epoch: u64) -> (result: ReadResult<T>) where T: Clone
        requires
            self.wf(),
        ensures
            match result {
                ReadResult::Empty => {
                    &&& !self@.retains(self@.best(target_epoch as int))
                    &&& forall|e: int| #[trigger] self@.retains(e) ==> e > target_epoch
                },
                ReadResult::Value { value, epoch, missed } => {
                    &&& self@.retains(epoch as int)
                    &&& 1 <= epoch <= target_epoch
                    &&& forall|e: int| #[trigger]
                        self@.retains(e) && e <= target_epoch ==> e <= epoch
                    &&& epoch == self@.best(target_epoch as int)
                    &&& missed == 0
                    &&& cloned(self@.log[epoch - 1], value)
                },
            },
    {
        let n = self.cells.len();
        let ghost len = self.log@.len() as int;
        let mut best: usize = 0;
        let mut best_epoch: u64 = 0;
        let mut i: usize = 0;
        while i < n
            invariant
                i <= n,
                n == self.cells@.len(),
                self.wf(),
                best_epoch <= target_epoch,
                best_epoch > 0 ==> best < i && self.cells@[best as int]@.epoch == best_epoch,
                forall|k: int|
                    0 <= k < i && (#[trigger] self.cells@[k])@.epoch <= target_epoch
                        ==> self.cells@[k]@.epoch <= best_epoch,
            decreases n - i,
        {
            let epoch = self.cells[i].epoch();
            if epoch > 0 && epoch <= target_epoch && epoch >= best_epoch {
                best = i;
                best_epoch = epoch;
            }
            i = i + 1;
        }
        proof {
            vstd::arithmetic::div_mod::lemma_mod_bound(len, n as int);
            let wanted = self@.best(target_epoch as int);
            if self@.retains(wanted) {
                // The slot that the wanted write fell on.
                let pos = self.write_pos as int;
                let back = len - wanted;
                let slot = if back < pos { pos - 1 - back } else { pos - 1 - back + n };
                assert(self.slot_ok(slot));
                assert(self.cells@[slot]@.epoch == wanted);
            }
            if best_epoch > 0 {
                assert(self.slot_ok(best as int));
            }
        }
        if best_epoch > 0 {
            self.cells[best].read(0)
        } else {
            ReadResult::Empty
        }
    }

    /// Number of slots.
    pub fn n_cells(&self) -> (n: usize)
        ensures
            n == self@.slots,
    {
        self.cells.len()
    }

    /// The slot the next write goes to.
    pub fn write_pos(&self) -> (pos: usize)
        requires
            self.wf(),
        ensures
            pos == self@.log.len() % self@.slots,
            pos < self@.slots,
    {
        proof {
            vstd::arithmetic::div_mod::lemma_mod_bound(
                self@.log.len() as int,
                self@.slots as int,
            );
        }
        self.write_pos
    }

    /// Writes and appends made so far.
    pub fn epoch(&self) -> (epoch: u64)
        requires
            self.wf(),
        ensures
            epoch == self@.log.len(),
    {
        self.ring_epoch
    }
}

/// A ring of N slots retains exactly its last N writes.
pub proof fn law_ring_retains_the_last_n<T>(ring: RingView<T>, epoch: int)
    ensures
        ring.retains(epoch) <==> exists|back: int|
            0 <= back < ring.slots && back < ring.log.len() && epoch == #[trigger] (ring.log.len()
                - back),
{
    if ring.retains(epoch) {
        let back = ring.log.len() - epoch;
        assert(epoch == ring.log.len() - back);
    }
}

/// A retained write is what a read at its epoch finds, and a read at an epoch
/// not reached yet finds the newest write.
pub proof fn law_read_at_epoch_finds_the_snapshot<T>(ring: RingView<T>, target: int)
    requires
        ring.slots >= 1,
        ring.log.len() >= 1,
    ensures
        ring.retains(target) ==> ring.best(target) == target,
        target >= ring.log.len() ==> ring.best(target) == ring.log.len() && ring.retains(
            ring.best(target),
        ),
{
}

/// A snapshot stays readable, unchanged, until as many further writes as the
/// ring has slots have been made since it was the newest, and no longer.
pub proof fn law_snapshot_survives_until_lapped<T>(ring: RingView<T>, values: Seq<T>, epoch: int)
    requires
        ring.retains(epoch),
    ensures
        ring.wrote_all(values).retains(epoch) <==> ring.log.len() - epoch + values.len()
            < ring.slots,
        ring.wrote_all(values).log[epoch - 1] == ring.log[epoch - 1],
{
}

/// Writing a run of values is writing them one by one.
pub proof fn law_wrote_all_is_repeated_wrote<T>(ring: RingView<T>, values: Seq<T>, value: T)
    ensures
        ring.wrote_all(values).wrote(value) == ring.wrote_all(values.push(value)),
        ring.wrote_all(Seq::empty()) == ring,
{
    assert((ring.log + values).push(value) =~= ring.log + values.push(value));
    assert(ring.log + Seq::<T>::empty() =~= ring.log);
}

/// A read at an epoch never finds a later one. It finds the highest retained epoch at or
/// below the target, and is empty exactly when none is.
pub proof fn law_read_at_epoch_finds_the_highest_below<T>(ring: RingView<T>, target: int)
    requires
        ring.slots >= 1,
        target >= 0,
    ensures
        ring.best(target) <= target,
        ring.retains(ring.best(target)) ==> 1 <= ring.best(target) <= ring.log.len(),
        ring.retains(ring.best(target)) ==> forall|e: int| #[trigger]
            ring.retains(e) && e <= target ==> e <= ring.best(target),
        ring.retains(ring.best(target)) <==> exists|e: int| #[trigger]
            ring.retains(e) && e <= target,
{
    if ring.retains(ring.best(target)) {
        assert(ring.best(target) <= target);
    }
}

/// A write or append adds exactly one snapshot, under the next epoch, and drops none but
/// the one that is as many writes old as there are slots.
pub proof fn law_ring_write_adds_one_snapshot<T>(ring: RingView<T>, value: T, epoch: int)
    requires
        ring.slots >= 1,
    ensures
        ({
            let after = ring.wrote(value);
            let newest = ring.log.len() + 1;
            &&& after.slots == ring.slots
            &&& after.log.len() == newest
            &&& after.log[newest - 1] == value
            &&& after.retains(newest as int)
            &&& after.best(newest as int) == newest
            &&& epoch != newest ==> (after.retains(epoch) <==> ring.retains(epoch) && epoch
                != newest - ring.slots)
            &&& ring.retains(epoch) ==> after.log[epoch - 1] == ring.log[epoch - 1]
        }),
{
}

/// The writer goes through the slots in a circle: after `laps` times round and `r` writes
/// more, the next one goes to slot `r`.
pub proof fn law_writer_cycles_through_the_slots<'a, T: Payload>(
    ring: Ring<'a, T>,
    laps: int,
    r: int,
)
    requires
        ring.wf(),
        0 <= r < ring@.slots,
        ring@.log.len() == laps * ring@.slots + r,
    ensures
        ring.next_slot() == r,
{
    vstd::arithmetic::div_mod::lemma_fundamental_div_mod_converse(
        ring@.log.len() as int,
        ring@.slots as int,
        laps,
        r,
    );
}

} // verus!
