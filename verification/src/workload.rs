//! What the throughput programs publish, check and decide, apart from the clock
//! and the threads.
use crate::adaptive::{AdaptiveCell, AdaptiveHandle, AdaptiveRegistry};
use crate::bridge::{BridgedCell, WATERMARK};
use crate::epoch::ReadResult;
use crate::registry::ReaderRegistry;
use vstd::prelude::*;

verus! {

/// Items per payload, about a kilobyte.
pub const PAYLOAD_LEN: usize = 128;

/// Consecutive numbers from `seed` on, wrapping at the top of the range.
pub fn make_payload(seed: u64) -> (payload: Vec<u64>)
    ensures
        payload@.len() == PAYLOAD_LEN,
        forall|i: int|
            0 <= i < PAYLOAD_LEN ==> #[trigger] payload@[i] == (seed + i) % (u64::MAX + 1),
{
    let mut payload: Vec<u64> = Vec::new();
    let mut i: usize = 0;
    while i < PAYLOAD_LEN
        invariant
            i <= PAYLOAD_LEN,
            payload@.len() == i,
            forall|k: int| 0 <= k < i ==> #[trigger] payload@[k] == (seed + k) % (u64::MAX + 1),
        decreases PAYLOAD_LEN - i,
    {
        payload.push(seed.wrapping_add(i as u64));
        i = i + 1;
    }
    payload
}

/// The sum of some items.
pub open spec fn sum(items: Seq<u64>) -> int
    decreases items.len(),
{
    if items.len() == 0 {
        0
    } else {
        sum(items.drop_last()) + items.last()
    }
}

/// The work a reader does on a payload: add all items to `start`, wrapping at the
/// top of the range.
pub fn checksum(items: &[u64], start: u64) -> (total: u64)
    ensures
        total == (start + sum(items@)) % (u64::MAX + 1),
{
    let mut total: u64 = start;
    let mut i: usize = 0;
    while i < items.len()
        invariant
            i <= items@.len(),
            total == (start + sum(items@.take(i as int))) % (u64::MAX + 1),
        decreases items@.len() - i,
    {
        assert(items@.take(i + 1).drop_last() =~= items@.take(i as int));
        total = total.wrapping_add(items[i]);
        i = i + 1;
    }
    assert(items@.take(i as int) =~= items@);
    total
}

/// What one reader of a stress run has seen so far.
#[derive(Debug, Clone, Copy, PartialEq)]
pub struct Watch {
    /// The epoch seen last; 0 if none was.
    pub last: u64,
    /// Reads made.
    pub reads: u64,
    /// Reads that found an older epoch than the read before.
    pub inversions: u64,
}

impl Watch {
    /// No more inversions than reads.
    pub open spec fn valid(self) -> bool {
        self.inversions <= self.reads
    }

    /// The state after one more read.
    pub open spec fn saw<T>(self, result: ReadResult<T>) -> Self {
        let reads = (self.reads + 1) as u64;
        match result {
            ReadResult::Empty => Watch { reads, ..self },
            ReadResult::Value { epoch, .. } => Watch {
                last: epoch,
                reads,
                inversions: if epoch < self.last {
                    (self.inversions + 1) as u64
                } else {
                    self.inversions
                },
            },
        }
    }

    /// The state after a run of reads.
    pub open spec fn saw_all<T>(self, results: Seq<ReadResult<T>>) -> Self
        decreases results.len(),
    {
        if results.len() == 0 {
            self
        } else {
            self.saw_all(results.drop_last()).saw(results.last())
        }
    }

    /// Nothing seen yet.
    pub fn new() -> (watch: Self)
        ensures
            watch == (Watch { last: 0, reads: 0, inversions: 0 }),
            watch.valid(),
    {
        Watch { last: 0, reads: 0, inversions: 0 }
    }

    /// Take note of one read.
    pub fn observe<T>(&mut self, result: &ReadResult<T>)
        requires
            old(self).valid(),
            old(self).reads < u64::MAX,
        ensures
            final(self).valid(),
            *final(self) == old(self).saw(*result),
    {
        if let ReadResult::Value { epoch, .. } = result {
            if *epoch < self.last {
                self.inversions = self.inversions + 1;
            }
            self.last = *epoch;
        }
        self.reads = self.reads + 1;
    }
}

/// A watch reports no inversion exactly when no read found an older epoch than an
/// earlier one.
pub proof fn law_watch_reports_every_inversion<T>(start: Watch, results: Seq<ReadResult<T>>)
    requires
        start.valid(),
        start.reads + results.len() <= u64::MAX,
    ensures
        start.saw_all(results).valid(),
        start.saw_all(results).reads == start.reads + results.len(),
        start.inversions <= start.saw_all(results).inversions,
        start.saw_all(results).inversions == start.inversions <==> {
            &&& forall|j: int|
                0 <= j < results.len() && (#[trigger] results[j]) is Value ==> start.last
                    <= results[j]->epoch
            &&& forall|i: int, j: int|
                0 <= i < j < results.len() && (#[trigger] results[i]) is Value && (
                #[trigger] results[j]) is Value ==> results[i]->epoch <= results[j]->epoch
        },
        start.saw_all(results).inversions == start.inversions ==> {
            &&& start.last <= start.saw_all(results).last
            &&& forall|j: int|
                0 <= j < results.len() && (#[trigger] results[j]) is Value ==> results[j]->epoch
                    <= start.saw_all(results).last
        },
        start.saw_all(results).last == start.last || exists|j: int|
            0 <= j < results.len() && (#[trigger] results[j]) is Value && results[j]->epoch
                == start.saw_all(results).last,
    decreases results.len(),
{
    if results.len() > 0 {
        let prefix = results.drop_last();
        let n = prefix.len() as int;
        law_watch_reports_every_inversion(start, prefix);
        assert(forall|j: int| 0 <= j < n ==> prefix[j] == results[j]);
        assert(results[n] == results.last());
        let before = start.saw_all(prefix);
        let after = before.saw(results.last());
        if before.last != start.last {
            let j = choose|j: int|
                0 <= j < n && (#[trigger] prefix[j]) is Value && prefix[j]->epoch == before.last;
            assert(results[j] is Value);
        }
        if after.inversions == start.inversions {
            assert(before.inversions == start.inversions);
            assert forall|i: int, j: int|
                0 <= i < j < results.len() && (#[trigger] results[i]) is Value && (
                #[trigger] results[j]) is Value implies results[i]->epoch <= results[j]->epoch by {
                assert(prefix[i] is Value);
                if j < n {
                    assert(prefix[j] is Value);
                }
            }
            assert forall|j: int|
                0 <= j < results.len() && (#[trigger] results[j]) is Value implies start.last
                <= results[j]->epoch && results[j]->epoch <= after.last by {
                if j < n {
                    assert(prefix[j] is Value);
                }
            }
        }
    }
}

/// When the writer of a bridged cell sweeps. The period is in writes.
#[derive(Debug, Clone, Copy, PartialEq, Eq)]
pub enum SweepPolicy {
    /// Look at the watermark once per period.
    Watermark(u64),
    /// Sweep once per period, however little is retired.
    Amortised(u64),
}

impl SweepPolicy {
    /// Writes between two looks.
    pub open spec fn period(self) -> u64 {
        match self {
            SweepPolicy::Watermark(period) => period,
            SweepPolicy::Amortised(period) => period,
        }
    }

    /// The state of the cell after `writes` writes have been made and the policy
    /// has been applied.
    pub open spec fn applied<T>(
        self,
        cell: crate::bridge::BridgeView<T>,
        writes: u64,
        floor: u64,
    ) -> crate::bridge::BridgeView<T> {
        if writes % self.period() == 0 && (self is Amortised || cell.retired.len() >= WATERMARK) {
            cell.swept(floor)
        } else {
            cell
        }
    }

    /// Apply the policy after a write; returns the number of blocks freed.
    pub fn after_write<T>(
        self,
        writes: u64,
        cell: &mut BridgedCell<T>,
        registry: &ReaderRegistry,
    ) -> (freed: usize)
        requires
            old(cell).wf(),
            self.period() > 0,
        ensures
            final(cell).wf(),
            final(cell)@ == self.applied(old(cell)@, writes, registry@.floor_min()),
            freed == old(cell)@.retired.len() - final(cell)@.retired.len(),
    {
        match self {
            SweepPolicy::Watermark(period) => if writes % period == 0 {
                cell.reclaim_if_watermark(registry)
            } else {
                0
            },
            SweepPolicy::Amortised(period) => if writes % period == 0 {
                cell.reclaim(registry)
            } else {
                0
            },
        }
    }
}

/// Length of a phase of a mixed workload, in milliseconds.
pub const PHASE_MS: u64 = 50;

/// What a mixed reader does next.
#[derive(Debug, Clone, Copy, PartialEq, Eq, Structural)]
pub enum MixedAction {
    /// Take a pinned view, look at it and give it up.
    Pin,
    /// Take an owned copy.
    Sample,
    /// Withdraw the demand for pinned views, then take an owned copy.
    WithdrawAndSample,
}

/// A reader that alternates between phases of pinned views and phases of owned
/// copies.
pub struct MixedReader {
    was_pinning: bool,
}

impl MixedReader {
    /// Whether its demand may still be standing.
    pub closed spec fn pinning(self) -> bool {
        self.was_pinning
    }

    /// A reader at the start of its first phase, a pinning one.
    pub fn new() -> (reader: Self)
        ensures
            reader.pinning(),
    {
        MixedReader { was_pinning: true }
    }

    /// Decide on the next read, given the time since the start. The demand is
    /// withdrawn once, at the first read of a sampling phase.
    pub fn next(&mut self, elapsed_ms: u64) -> (action: MixedAction)
        ensures
            action == (if (elapsed_ms / PHASE_MS) % 2 == 0 {
                MixedAction::Pin
            } else if old(self).pinning() {
                MixedAction::WithdrawAndSample
            } else {
                MixedAction::Sample
            }),
            final(self).pinning() == ((elapsed_ms / PHASE_MS) % 2 == 0),
    {
        if (elapsed_ms / PHASE_MS) % 2 == 0 {
            self.was_pinning = true;
            MixedAction::Pin
        } else if self.was_pinning {
            self.was_pinning = false;
            MixedAction::WithdrawAndSample
        } else {
            MixedAction::Sample
        }
    }
}

/// A payload of sixteen equal numbers.
pub open spec fn filled(i: u64) -> [u64; 16] {
    vstd::array::spec_array_fill_for_copy_type::<u64, 16>(i)
}

/// The writes of a phased run: numbers from 1 on, with pinned views wanted by the
/// reader of `slot` in every other phase, the first one excepted.
pub open spec fn phased_run(
    registry: crate::adaptive::AdaptiveRegistryView,
    slot: int,
    phases: int,
    per_phase: int,
) -> Seq<crate::adaptive::AdaptiveWrite<[u64; 16]>> {
    Seq::new(
        (phases * per_phase) as nat,
        |k: int|
            crate::adaptive::AdaptiveWrite {
                value: filled((k + 1) as u64),
                demand: registry.demanding(slot, (k / per_phase) % 2 == 1).demanded(),
                floor: registry.floors.floor_min(),
            },
    )
}

/// The state of the registry after a phased run: the demand of the last phase.
pub open spec fn phased_registry(
    registry: crate::adaptive::AdaptiveRegistryView,
    slot: int,
    phases: int,
) -> crate::adaptive::AdaptiveRegistryView {
    if phases == 0 {
        registry
    } else {
        registry.demanding(slot, phases % 2 == 0)
    }
}

/// Drive an adaptive cell through `phases` phases of `per_phase` writes each. A
/// reader that holds no view wants pinned views in every other phase: it takes one
/// at the start of the phase and gives it up again, and withdraws its demand at the
/// start of the phases between.
pub fn run_phases(
    cell: &mut AdaptiveCell<[u64; 16]>,
    registry: &mut AdaptiveRegistry,
    handle: &AdaptiveHandle,
    phases: u64,
    per_phase: u64,
)
    requires
        old(cell).wf(),
        old(cell)@.epoch + phases * per_phase < crate::seqlock::EPOCH_LIMIT,
        old(registry)@.valid(),
        old(registry)@.floors.owns(handle.slot()),
        old(registry)@.floors.holds[handle.slot()] == crate::registry::HoldView::empty(),
        old(registry)@.floors.floors[handle.slot()] == crate::registry::IDLE,
    ensures
        final(cell).wf(),
        final(cell)@ == old(cell)@.after(
            phased_run(old(registry)@, handle.slot(), phases as int, per_phase as int),
        ),
        final(registry)@.valid(),
        final(registry)@ == phased_registry(old(registry)@, handle.slot(), phases as int),
{
    let ghost slot = handle.slot();
    let ghost run = phased_run(old(registry)@, slot, phases as int, per_phase as int);
    let ghost n = per_phase as int;
    let mut i: u64 = 0;
    let mut phase: u64 = 0;
    assert(run.take(0) =~= Seq::empty());
    while phase < phases
        invariant
            phase <= phases,
            slot == handle.slot(),
            n == per_phase,
            run == phased_run(old(registry)@, slot, phases as int, n),
            i == phase * per_phase,
            old(cell).wf(),
            old(cell)@.epoch + phases * per_phase < crate::seqlock::EPOCH_LIMIT,
            cell.wf(),
            cell@.epoch == old(cell)@.epoch + i,
            cell@ == old(cell)@.after(run.take(i as int)),
            old(registry)@.valid(),
            old(registry)@.floors.owns(slot),
            old(registry)@.floors.holds[slot] == crate::registry::HoldView::empty(),
            old(registry)@.floors.floors[slot] == crate::registry::IDLE,
            registry@.valid(),
            registry@ == phased_registry(old(registry)@, slot, phase as int),
        decreases phases - phase,
    {
        if phase % 2 == 1 {
            let ghost floors = registry@.floors;
            if let Some(view) = cell.read_pinned(registry, handle, 0) {
                view.release(registry);
            }
            proof {
                crate::registry::law_view_given_up_leaves_no_trace(
                    floors.holds[slot],
                    cell@.blocks.epoch,
                );
                crate::registry::lemma_empty_floor();
                assert(registry@.floors =~= floors);
            }
        } else {
            handle.release_demand(registry);
        }
        assert(registry@ =~= old(registry)@.demanding(slot, phase % 2 == 1));
        let mut j: u64 = 0;
        while j < per_phase
            invariant
                j <= per_phase,
                phase < phases,
                n == per_phase,
                run == phased_run(old(registry)@, slot, phases as int, n),
                i == phase * per_phase + j,
                old(cell)@.epoch + phases * per_phase < crate::seqlock::EPOCH_LIMIT,
                cell.wf(),
                cell@.epoch == old(cell)@.epoch + i,
                cell@ == old(cell)@.after(run.take(i as int)),
                registry@ == old(registry)@.demanding(slot, phase % 2 == 1),
            decreases per_phase - j,
        {
            assert(i < phases * per_phase) by (nonlinear_arith)
                requires
                    i == phase * per_phase + j,
                    j < per_phase,
                    phase < phases,
            ;
            proof {
                let k = i as int;
                vstd::arithmetic::div_mod::lemma_fundamental_div_mod_converse(
                    k,
                    n,
                    phase as int,
                    j as int,
                );
                assert(run.take(k + 1).drop_last() =~= run.take(k));
                assert(run.take(k + 1).last() == run[k]);
            }
            i = i + 1;
            cell.write([i; 16], registry);
            j = j + 1;
        }
        assert((phase + 1) * per_phase == phase * per_phase + per_phase) by (nonlinear_arith);
        phase = phase + 1;
    }
    assert(run.take(i as int) =~= run);
}

/// Each phase ends in the mode that suits it: if a phase is longer than the
/// hysteresis window, the cell is hot at its end exactly when pinned views were
/// wanted.
pub proof fn law_phase_ends_in_its_mode(
    cell: crate::adaptive::AdaptiveView<[u64; 16]>,
    registry: crate::adaptive::AdaptiveRegistryView,
    slot: int,
    phases: int,
    per_phase: int,
)
    requires
        cell.valid(),
        cell.epoch + phases * per_phase < crate::seqlock::EPOCH_LIMIT,
        phases >= 1,
        per_phase > crate::adaptive::COOL_DOWN,
    ensures
        cell.after(phased_run(registry, slot, phases, per_phase)).hot == phased_registry(
            registry,
            slot,
            phases,
        ).demanded(),
{
    let run = phased_run(registry, slot, phases, per_phase);
    let m = (phases - 1) * per_phase;
    assert(0 <= m && m + per_phase == phases * per_phase) by (nonlinear_arith)
        requires
            m == (phases - 1) * per_phase,
            phases >= 1,
            per_phase >= 1,
    ;
    let tail = run.skip(m);
    let wanted = phased_registry(registry, slot, phases).demanded();
    assert forall|j: int| 0 <= j < tail.len() implies (#[trigger] tail[j]).demand == wanted by {
        vstd::arithmetic::div_mod::lemma_fundamental_div_mod_converse(
            m + j,
            per_phase,
            phases - 1,
            j,
        );
        assert(tail[j] == run[m + j]);
    }
    crate::adaptive::lemma_after_splits(cell, run, m);
    crate::adaptive::law_owned_read_finds_latest(cell, run.take(m));
    let before = cell.after(run.take(m));
    if wanted {
        assert(tail.last().demand);
    } else {
        crate::adaptive::law_cools_down_after_the_window(before, tail);
    }
}

/// The sum of a single item is the item, and sums add up.
pub proof fn law_sum_adds_up(a: Seq<u64>, b: Seq<u64>, item: u64)
    ensures
        sum(Seq::<u64>::empty()) == 0,
        sum(seq![item]) == item,
        sum(a + b) == sum(a) + sum(b),
    decreases b.len(),
{
    assert(seq![item].drop_last() =~= Seq::empty());
    if b.len() == 0 {
        assert(a + b =~= a);
    } else {
        law_sum_adds_up(a, b.drop_last(), item);
        assert((a + b).drop_last() =~= a + b.drop_last());
    }
}

/// A watch remembers the epoch of the last value it saw, counts every read, and counts an
/// inversion exactly when the epoch went back.
pub proof fn law_watch_follows_the_epoch<T>(watch: Watch, result: ReadResult<T>)
    requires
        watch.valid(),
        watch.reads < u64::MAX,
    ensures
        watch.saw(result).reads == watch.reads + 1,
        result is Empty ==> watch.saw(result).last == watch.last,
        result is Value ==> watch.saw(result).last == result->epoch,
        watch.saw(result).inversions == watch.inversions + (if result is Value && result->epoch
            < watch.last {
            1int
        } else {
            0
        }),
{
}

/// A policy only ever sweeps: the value and its epoch stay, and so does every block at or
/// above the floor. Between two periods, and below the watermark if it waits for that, it
/// leaves the cell alone; otherwise no block below the floor is left behind the head.
pub proof fn law_policy_only_sweeps<T>(
    policy: SweepPolicy,
    cell: crate::bridge::BridgeView<T>,
    writes: u64,
    floor: u64,
    epoch: u64,
    value: T,
)
    requires
        cell.valid(),
        policy.period() > 0,
    ensures
        ({
            let after = policy.applied(cell, writes, floor);
            let due = writes % policy.period() == 0;
            &&& after.valid()
            &&& after.epoch == cell.epoch
            &&& after.head == cell.head
            &&& after.has_block(epoch, value) ==> cell.has_block(epoch, value)
            &&& cell.has_block(epoch, value) && epoch >= floor ==> after.has_block(epoch, value)
            &&& !due ==> after == cell
            &&& policy is Watermark && cell.retired.len() < WATERMARK ==> after == cell
            &&& due && (policy is Amortised || cell.retired.len() >= WATERMARK)
                && after.has_block(epoch, value) ==> epoch >= floor || epoch == cell.epoch
        }),
        policy matches SweepPolicy::Watermark(period) ==> policy.period() == period,
        policy matches SweepPolicy::Amortised(period) ==> policy.period() == period,
{
    crate::bridge::law_sweep_honours_the_floor(cell, floor, epoch, value);
    crate::bridge::law_sweep_keeps_the_head(cell, floor);
}

/// A phased run makes all writes of all phases, numbered from 1 on, under one floor. The
/// reader of the slot wants pinned views in the odd phases and in no other; its demand
/// after the run is that of the last phase, and no other flag and no floor has changed.
pub proof fn law_phases_alternate(
    registry: crate::adaptive::AdaptiveRegistryView,
    slot: int,
    phases: int,
    per_phase: int,
    phase: int,
    j: int,
)
    requires
        registry.valid(),
        registry.floors.owns(slot),
        0 <= phase < phases,
        0 <= j < per_phase,
        phases * per_phase < u64::MAX,
    ensures
        ({
            let run = phased_run(registry, slot, phases, per_phase);
            let k = phase * per_phase + j;
            let after = phased_registry(registry, slot, phases);
            &&& run.len() == phases * per_phase
            &&& 0 <= k < run.len()
            &&& forall|lane: int| 0 <= lane < 16 ==> #[trigger] run[k].value@[lane] == k + 1
            &&& run[k].floor == registry.floors.floor_min()
            &&& phase % 2 == 1 ==> run[k].demand
            &&& phase % 2 == 0 ==> (run[k].demand <==> exists|other: int|
                0 <= other < crate::registry::MAX_READERS && other != slot
                    && #[trigger] registry.demand[other])
            &&& after.demand[slot] == ((phases - 1) % 2 == 1)
            &&& after.demand.len() == registry.demand.len()
            &&& forall|other: int|
                0 <= other < registry.demand.len() && other != slot ==> after.demand[other]
                    == #[trigger] registry.demand[other]
            &&& after.floors == registry.floors
        }),
        phased_registry(registry, slot, 0) == registry,
{
    let run = phased_run(registry, slot, phases, per_phase);
    let k = phase * per_phase + j;
    assert(0 <= k < phases * per_phase) by (nonlinear_arith)
        requires
            k == phase * per_phase + j,
            0 <= phase < phases,
            0 <= j < per_phase,
    ;
    vstd::arithmetic::div_mod::lemma_fundamental_div_mod_converse(k, per_phase, phase, j);
    let wanted = registry.demanding(slot, phase % 2 == 1);
    assert(wanted.demand[slot] == (phase % 2 == 1));
    if phase % 2 == 0 && run[k].demand {
        let other = choose|i: int| 0 <= i < wanted.demand.len() && wanted.demand[i] == true;
        assert(registry.demand[other]);
    }
    if exists|other: int|
        0 <= other < crate::registry::MAX_READERS && other != slot
            && #[trigger] registry.demand[other] {
        let other = choose|other: int|
            0 <= other < crate::registry::MAX_READERS && other != slot
                && #[trigger] registry.demand[other];
        assert(wanted.demand[other]);
    }
}

} // verus!
