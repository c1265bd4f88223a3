//! Reader slots and epoch floors: which epochs may still be read.
//!
//! Every reader owns one slot. A slot publishes the reader's floor, the lowest
//! epoch it may still look at, and `u64::MAX` while it looks at nothing. A sweep
//! frees only what lies below the lowest floor of all slots.
//!
//! A reader may hold several views at once. Its hold stack records the epoch of
//! each, up to a fixed depth; beyond that it counts the views and keeps one floor
//! for all of them, which may pin longer than necessary but never shorter. A counter
//! that has reached its end stays there, and pins until the slot is given up.
use vstd::multiset::Multiset;
use vstd::prelude::*;

verus! {

/// Reader slots per registry. Slots are not recycled.
pub const MAX_READERS: usize = 64;

/// Views one reader can hold before its stack spills.
pub const HOLD_DEPTH: usize = 8;

/// The floor of a reader that looks at nothing.
pub const IDLE: u64 = u64::MAX;

/// The lowest of some floors; idle if there are none.
pub open spec fn lowest(floors: Seq<u64>) -> u64
    decreases floors.len(),
{
    if floors.len() == 0 {
        IDLE
    } else if floors.last() < lowest(floors.drop_last()) {
        floors.last()
    } else {
        lowest(floors.drop_last())
    }
}

/// The lowest floor is a lower bound, and it is reached unless all are idle.
pub proof fn law_lowest_is_the_minimum(floors: Seq<u64>)
    ensures
        forall|i: int| 0 <= i < floors.len() ==> lowest(floors) <= #[trigger] floors[i],
        lowest(floors) != IDLE ==> floors.contains(lowest(floors)),
    decreases floors.len(),
{
    if floors.len() > 0 {
        let front = floors.drop_last();
        law_lowest_is_the_minimum(front);
        assert forall|i: int| 0 <= i < floors.len() implies lowest(floors) <= #[trigger] floors[i] by {
            if i < front.len() {
                assert(front[i] == floors[i]);
            }
        }
        if lowest(floors) != IDLE {
            if lowest(floors) == floors.last() {
                assert(floors[floors.len() - 1] == lowest(floors));
            } else {
                let i = choose|i: int| 0 <= i < front.len() && front[i] == lowest(front);
                assert(floors[i] == lowest(floors));
            }
        }
    }
}

/// A receipt for one view that a hold stack keeps alive.
pub struct Hold {
    epoch: u64,
    spilled: bool,
}

impl Hold {
    /// The epoch held.
    pub closed spec fn at(self) -> u64 {
        self.epoch
    }

    /// Whether the stack was full when the view was taken.
    pub closed spec fn is_spilled(self) -> bool {
        self.spilled
    }

    /// The epoch held.
    pub fn epoch(&self) -> (epoch: u64)
        ensures
            epoch == self.at(),
    {
        self.epoch
    }
}

/// The state of a hold stack.
#[verifier::ext_equal]
pub struct HoldView {
    /// The recorded epochs.
    pub stack: Seq<u64>,
    /// Views beyond the recorded ones.
    pub spilled: nat,
    /// A floor for all spilled views; idle when there are none.
    pub spill_floor: u64,
}

impl HoldView {
    /// No views at all.
    pub open spec fn empty() -> Self {
        HoldView { stack: Seq::empty(), spilled: 0, spill_floor: IDLE }
    }

    /// The floor to publish.
    pub open spec fn floor(self) -> u64 {
        lowest(self.stack.push(self.spill_floor))
    }

    /// Whether one more view spills.
    pub open spec fn full(self) -> bool {
        self.stack.len() >= HOLD_DEPTH
    }

    /// Whether the counter of spilled views has reached its end.
    pub open spec fn stuck(self) -> bool {
        self.spilled >= u64::MAX
    }

    /// The state after one more view.
    pub open spec fn held(self, epoch: u64) -> Self {
        if self.full() {
            HoldView {
                stack: self.stack,
                spilled: if self.spilled < u64::MAX {
                    self.spilled + 1
                } else {
                    self.spilled
                },
                spill_floor: if epoch < self.spill_floor {
                    epoch
                } else {
                    self.spill_floor
                },
            }
        } else {
            HoldView {
                stack: self.stack.push(epoch),
                spilled: self.spilled,
                spill_floor: self.spill_floor,
            }
        }
    }

    /// The state after a view is given up. A receipt that matches nothing
    /// changes nothing.
    pub open spec fn released(self, epoch: u64, was_spilled: bool) -> Self {
        if was_spilled && self.stuck() {
            self
        } else if was_spilled {
            HoldView {
                stack: self.stack,
                spilled: if self.spilled > 0 {
                    (self.spilled - 1) as nat
                } else {
                    0
                },
                spill_floor: if self.spilled > 1 {
                    self.spill_floor
                } else {
                    IDLE
                },
            }
        } else if self.stack.contains(epoch) {
            HoldView {
                stack: self.stack.remove(self.stack.index_of_first(epoch)->0),
                spilled: self.spilled,
                spill_floor: self.spill_floor,
            }
        } else {
            self
        }
    }

    /// Within the depth, all epochs are real ones, and the spill floor is idle
    /// when nothing is spilled.
    pub open spec fn valid(self) -> bool {
        &&& self.stack.len() <= HOLD_DEPTH
        &&& forall|i: int| 0 <= i < self.stack.len() ==> #[trigger] self.stack[i] >= 1
        &&& self.spill_floor >= 1
        &&& self.spilled == 0 ==> self.spill_floor == IDLE
    }
}

/// The epochs of the views one reader holds.
pub struct HoldStack {
    epochs: Vec<u64>,
    overflow_count: u64,
    overflow_floor: u64,
}

impl View for HoldStack {
    type V = HoldView;

    closed spec fn view(&self) -> HoldView {
        HoldView {
            stack: self.epochs@,
            spilled: self.overflow_count as nat,
            spill_floor: self.overflow_floor,
        }
    }
}

impl HoldStack {
    /// A stack that holds nothing.
    pub fn new() -> (holds: Self)
        ensures
            holds@ == HoldView::empty(),
            holds@.valid(),
    {
        HoldStack { epochs: Vec::new(), overflow_count: 0, overflow_floor: IDLE }
    }

    /// Record one more view.
    pub fn push(&mut self, epoch: u64) -> (hold: Hold)
        requires
            old(self)@.valid(),
            epoch >= 1,
        ensures
            final(self)@.valid(),
            final(self)@ == old(self)@.held(epoch),
            hold.at() == epoch,
            hold.is_spilled() == old(self)@.full(),
    {
        if self.epochs.len() < HOLD_DEPTH {
            self.epochs.push(epoch);
            Hold { epoch, spilled: false }
        } else {
            if self.overflow_count < u64::MAX {
                self.overflow_count = self.overflow_count + 1;
            }
            if epoch < self.overflow_floor {
                self.overflow_floor = epoch;
            }
            Hold { epoch, spilled: true }
        }
    }

    /// Give one view up.
    pub fn release(&mut self, hold: Hold)
        requires
            old(self)@.valid(),
        ensures
            final(self)@.valid(),
            final(self)@ == old(self)@.released(hold.at(), hold.is_spilled()),
    {
        if hold.spilled {
            if self.overflow_count == u64::MAX {
                return;
            }
            if self.overflow_count > 0 {
                self.overflow_count = self.overflow_count - 1;
            }
            if self.overflow_count == 0 {
                self.overflow_floor = IDLE;
            }
            return;
        }
        let mut i: usize = 0;
        while i < self.epochs.len()
            invariant
                *self == *old(self),
                old(self)@.valid(),
                !hold.spilled,
                i <= self.epochs@.len(),
                forall|k: int| 0 <= k < i ==> self.epochs@[k] != hold.epoch,
            decreases self.epochs@.len() - i,
        {
            if self.epochs[i] == hold.epoch {
                proof {
                    self.epochs@.index_of_first_ensures(hold.epoch);
                    assert(self.epochs@.index_of_first(hold.epoch)->0 == i);
                }
                self.epochs.remove(i);
                return;
            }
            i = i + 1;
        }
    }

    /// The lowest epoch held; idle if nothing is held.
    pub fn floor(&self) -> (floor: u64)
        ensures
            floor == self@.floor(),
    {
        let mut floor: u64 = IDLE;
        let mut i: usize = 0;
        while i < self.epochs.len()
            invariant
                i <= self.epochs@.len(),
                floor == lowest(self.epochs@.take(i as int)),
            decreases self.epochs@.len() - i,
        {
            assert(self.epochs@.take(i + 1).drop_last() =~= self.epochs@.take(i as int));
            if self.epochs[i] < floor {
                floor = self.epochs[i];
            }
            i = i + 1;
        }
        assert(self.epochs@.take(i as int) =~= self.epochs@);
        assert(self.epochs@.push(self.overflow_floor).drop_last() =~= self.epochs@);
        if self.overflow_floor < floor {
            floor = self.overflow_floor;
        }
        floor
    }
}

impl HoldView {
    /// Whether the stack accounts for exactly these live views: the recorded
    /// ones are in the stack, and the spilled ones are counted, as far as the
    /// counter goes, and lie at or above the spill floor.
    pub open spec fn accounts_for(self, recorded: Multiset<u64>, spilled: Multiset<u64>) -> bool {
        &&& self.valid()
        &&& self.stack.to_multiset() == recorded
        &&& !self.stuck() ==> self.spilled == spilled.len()
        &&& forall|epoch: u64| #[trigger] spilled.contains(epoch) ==> self.spill_floor <= epoch
    }
}

/// Taking a view adds it to the account, and only it.
pub proof fn law_hold_adds_one_view(
    holds: HoldView,
    recorded: Multiset<u64>,
    spilled: Multiset<u64>,
    epoch: u64,
)
    requires
        holds.accounts_for(recorded, spilled),
        epoch >= 1,
    ensures
        holds.full() ==> holds.held(epoch).accounts_for(recorded, spilled.insert(epoch)),
        !holds.full() ==> holds.held(epoch).accounts_for(recorded.insert(epoch), spilled),
{
    broadcast use {
        vstd::seq_lib::group_to_multiset_ensures,
        vstd::multiset::group_multiset_axioms,
    };

    let next = holds.held(epoch);
    if holds.full() {
        assert forall|e: u64| #[trigger] spilled.insert(epoch).contains(e) implies next.spill_floor
            <= e by {
            if e != epoch {
                assert(spilled.contains(e));
            }
        }
    }
}

/// Giving a view up removes it from the account, and only it.
pub proof fn law_release_removes_one_view(
    holds: HoldView,
    recorded: Multiset<u64>,
    spilled: Multiset<u64>,
    epoch: u64,
)
    requires
        holds.accounts_for(recorded, spilled),
    ensures
        recorded.contains(epoch) ==> holds.released(epoch, false).accounts_for(
            recorded.remove(epoch),
            spilled,
        ),
        spilled.contains(epoch) ==> holds.released(epoch, true).accounts_for(
            recorded,
            spilled.remove(epoch),
        ),
{
    broadcast use {
        vstd::seq_lib::group_to_multiset_ensures,
        vstd::multiset::group_multiset_axioms,
    };

    if recorded.contains(epoch) {
        assert(holds.stack.contains(epoch));
        holds.stack.index_of_first_ensures(epoch);
        let next = holds.released(epoch, false);
        assert(next.stack.to_multiset() =~= recorded.remove(epoch));
    }
    if spilled.contains(epoch) {
        let rest = spilled.remove(epoch);
        let next = holds.released(epoch, true);
        assert(rest.len() == spilled.len() - 1);
        assert forall|e: u64| #[trigger] rest.contains(e) implies next.spill_floor <= e by {
            assert(spilled.contains(e));
            if spilled.len() == 1 {
                assert(rest.len() == 0);
                assert(rest.count(e) == 0);
            }
        }
    }
}

/// The floor lies at or below every live view, spilled or not.
pub proof fn law_floor_covers_every_view(
    holds: HoldView,
    recorded: Multiset<u64>,
    spilled: Multiset<u64>,
    epoch: u64,
)
    requires
        holds.accounts_for(recorded, spilled),
        recorded.contains(epoch) || spilled.contains(epoch),
    ensures
        holds.floor() <= epoch,
{
    broadcast use vstd::seq_lib::group_to_multiset_ensures;

    let floors = holds.stack.push(holds.spill_floor);
    law_lowest_is_the_minimum(floors);
    assert(floors[holds.stack.len() as int] == holds.spill_floor);
    if recorded.contains(epoch) {
        assert(holds.stack.contains(epoch));
        let i = choose|i: int| 0 <= i < holds.stack.len() && holds.stack[i] == epoch;
        assert(floors[i] == epoch);
    }
}

/// Once the last view is given up, the reader pins nothing.
pub proof fn law_no_view_no_floor(holds: HoldView)
    requires
        holds.accounts_for(Multiset::empty(), Multiset::empty()),
        !holds.stuck(),
    ensures
        holds == HoldView::empty(),
        holds.floor() == IDLE,
{
    broadcast use {
        vstd::seq_lib::group_to_multiset_ensures,
        vstd::multiset::group_multiset_axioms,
    };

    assert(holds.stack.to_multiset().len() == 0);
    assert(holds.stack =~= Seq::empty());
    lemma_empty_floor();
}

/// A view that is taken within the depth and given up again leaves no trace, if no
/// other view of the same epoch is held.
pub proof fn law_view_given_up_leaves_no_trace(holds: HoldView, epoch: u64)
    requires
        !holds.full(),
        !holds.stack.contains(epoch),
    ensures
        holds.held(epoch).released(epoch, false) == holds,
{
    let held = holds.held(epoch).stack;
    assert(held[holds.stack.len() as int] == epoch);
    held.index_of_first_ensures(epoch);
    let i = held.index_of_first(epoch)->0;
    if i < holds.stack.len() {
        assert(holds.stack[i] == epoch);
    }
    assert(held.remove(i) =~= holds.stack);
}

/// A reader that never nests deeper than the stack pins exactly what it holds:
/// its floor is one of its live epochs.
pub proof fn law_floor_is_exact_within_depth(holds: HoldView)
    requires
        holds.valid(),
        holds.spilled == 0,
        holds.floor() != IDLE,
    ensures
        holds.stack.contains(holds.floor()),
{
    let floors = holds.stack.push(holds.spill_floor);
    law_lowest_is_the_minimum(floors);
    let i = choose|i: int| 0 <= i < floors.len() && floors[i] == lowest(floors);
    assert(i < holds.stack.len());
    assert(holds.stack[i] == holds.floor());
}

/// The state of a registry.
#[verifier::ext_equal]
pub struct RegistryView {
    /// Slots handed out so far.
    pub acquired: nat,
    /// The published floor of each slot.
    pub floors: Seq<u64>,
    /// The views each slot's reader holds.
    pub holds: Seq<HoldView>,
}

impl RegistryView {
    /// No slot handed out, every slot idle.
    pub open spec fn empty() -> Self {
        RegistryView {
            acquired: 0,
            floors: Seq::new(MAX_READERS as nat, |i: int| IDLE),
            holds: Seq::new(MAX_READERS as nat, |i: int| HoldView::empty()),
        }
    }

    /// The lowest published floor: nothing at or above it may be freed.
    pub open spec fn floor_min(self) -> u64 {
        lowest(self.floors)
    }

    /// Whether a slot publishes the floor of the views it holds.
    pub open spec fn settled(self, slot: int) -> bool {
        self.floors[slot] == self.holds[slot].floor()
    }

    /// The state in which `slot` publishes `floor`.
    pub open spec fn published(self, slot: int, floor: u64) -> Self {
        RegistryView {
            acquired: self.acquired,
            floors: self.floors.update(slot, floor),
            holds: self.holds,
        }
    }

    /// The state in which `slot` holds `holds` and publishes its floor.
    pub open spec fn holding(self, slot: int, holds: HoldView) -> Self {
        RegistryView {
            acquired: self.acquired,
            floors: self.floors.update(slot, holds.floor()),
            holds: self.holds.update(slot, holds),
        }
    }

    /// One slot per possible reader; no slot publishes more than the floor of the
    /// views it holds; a slot not handed out holds none.
    pub open spec fn valid(self) -> bool {
        &&& self.acquired <= MAX_READERS
        &&& self.floors.len() == MAX_READERS
        &&& self.holds.len() == MAX_READERS
        &&& forall|i: int| 0 <= i < MAX_READERS ==> (#[trigger] self.holds[i]).valid()
        &&& forall|i: int|
            0 <= i < MAX_READERS ==> #[trigger] self.floors[i] <= self.holds[i].floor()
        &&& forall|i: int|
            self.acquired <= i < MAX_READERS ==> (#[trigger] self.holds[i]) == HoldView::empty()
    }

    /// Whether a slot has been handed out.
    pub open spec fn owns(self, slot: int) -> bool {
        0 <= slot < self.acquired
    }
}

/// A reader's claim to one slot, until the registry's `release`.
pub struct ReaderHandle {
    slot: usize,
}

impl ReaderHandle {
    /// The slot claimed.
    pub closed spec fn slot(self) -> int {
        self.slot as int
    }

    /// The slot claimed.
    pub fn slot_index(&self) -> (slot: usize)
        ensures
            slot == self.slot(),
    {
        self.slot
    }
}

/// The slots of all readers that share some cells.
pub struct ReaderRegistry {
    floors: Vec<u64>,
    holds: Vec<HoldStack>,
    next: usize,
}

impl View for ReaderRegistry {
    type V = RegistryView;

    closed spec fn view(&self) -> RegistryView {
        RegistryView {
            acquired: self.next as nat,
            floors: self.floors@,
            holds: self.holds@.map_values(|h: HoldStack| h@),
        }
    }
}

impl ReaderRegistry {
    /// A registry nobody has acquired a slot of.
    pub fn new() -> (registry: Self)
        ensures
            registry@ == RegistryView::empty(),
            registry@.valid(),
    {
        let mut floors: Vec<u64> = Vec::new();
        let mut holds: Vec<HoldStack> = Vec::new();
        let mut i: usize = 0;
        while i < MAX_READERS
            invariant
                i <= MAX_READERS,
                floors@ == Seq::new(i as nat, |k: int| IDLE),
                holds@.len() == i,
                forall|k: int| 0 <= k < i ==> (#[trigger] holds@[k])@ == HoldView::empty(),
            decreases MAX_READERS - i,
        {
            floors.push(IDLE);
            holds.push(HoldStack::new());
            i = i + 1;
            assert(floors@ =~= Seq::new(i as nat, |k: int| IDLE));
        }
        proof {
            lemma_empty_floor();
        }
        let registry = ReaderRegistry { floors, holds, next: 0 };
        assert(registry@ =~= RegistryView::empty());
        registry
    }

    /// Claim a slot, one per reader for the reader's lifetime.
    pub fn acquire(&mut self) -> (handle: ReaderHandle)
        requires
            old(self)@.valid(),
            old(self)@.acquired < MAX_READERS,
        ensures
            final(self)@.valid(),
            final(self)@ == (RegistryView { acquired: old(self)@.acquired + 1, ..old(self)@ }),
            handle.slot() == old(self)@.acquired,
    {
        let slot = self.next;
        self.next = slot + 1;
        ReaderHandle { slot }
    }

    /// Slots handed out so far.
    pub fn acquired(&self) -> (n: usize)
        ensures
            n == self@.acquired,
    {
        self.next
    }

    /// Whether any reader ever claimed a slot. Never goes back to false.
    pub fn has_any_reader(&self) -> (any: bool)
        ensures
            any == (self@.acquired > 0),
    {
        self.next > 0
    }

    /// The lowest published floor.
    pub fn floor_min(&self) -> (floor: u64)
        ensures
            floor == self@.floor_min(),
    {
        let mut floor: u64 = IDLE;
        let mut i: usize = 0;
        while i < self.floors.len()
            invariant
                i <= self.floors@.len(),
                floor == lowest(self.floors@.take(i as int)),
            decreases self.floors@.len() - i,
        {
            assert(self.floors@.take(i + 1).drop_last() =~= self.floors@.take(i as int));
            if self.floors[i] < floor {
                floor = self.floors[i];
            }
            i = i + 1;
        }
        assert(self.floors@.take(i as int) =~= self.floors@);
        floor
    }

    /// First step of taking a view: publish the lowest floor there is, before
    /// the head is looked at. Epochs start at 1, so nothing can be freed until
    /// the floor is raised again.
    pub fn announce(&mut self, handle: &ReaderHandle)
        requires
            old(self)@.valid(),
            old(self)@.owns(handle.slot()),
        ensures
            final(self)@.valid(),
            final(self)@ == old(self)@.published(handle.slot(), 1),
    {
        let slot = handle.slot;
        proof {
            lemma_floor_at_least_one(self@.holds[slot as int]);
        }
        self.floors.set(slot, 1);
    }

    /// Last step of taking a view, after the announcement: record its epoch and
    /// publish the floor of all views now held.
    pub fn hold(&mut self, handle: &ReaderHandle, epoch: u64) -> (hold: Hold)
        requires
            old(self)@.valid(),
            old(self)@.owns(handle.slot()),
            old(self)@.floors[handle.slot()] == 1,
            epoch >= 1,
        ensures
            final(self)@.valid(),
            final(self)@ == old(self)@.holding(
                handle.slot(),
                old(self)@.holds[handle.slot()].held(epoch),
            ),
            hold.at() == epoch,
            hold.is_spilled() == old(self)@.holds[handle.slot()].full(),
    {
        let slot = handle.slot;
        let hold = self.holds[slot].push(epoch);
        let floor = self.holds[slot].floor();
        self.floors.set(slot, floor);
        assert(self@ =~= old(self)@.holding(
            slot as int,
            old(self)@.holds[slot as int].held(epoch),
        ));
        hold
    }

    /// Raise the floor back to that of the views held, after an announcement
    /// that led to no view.
    pub fn settle(&mut self, handle: &ReaderHandle)
        requires
            old(self)@.valid(),
            old(self)@.owns(handle.slot()),
        ensures
            final(self)@.valid(),
            final(self)@ == old(self)@.holding(handle.slot(), old(self)@.holds[handle.slot()]),
    {
        let slot = handle.slot;
        let floor = self.holds[slot].floor();
        self.floors.set(slot, floor);
        assert(self@ =~= old(self)@.holding(slot as int, old(self)@.holds[slot as int]));
    }

    /// Give a view up and publish the floor of the views that remain.
    pub fn release_hold(&mut self, slot: usize, hold: Hold)
        requires
            old(self)@.valid(),
            old(self)@.owns(slot as int),
        ensures
            final(self)@.valid(),
            final(self)@ == old(self)@.holding(
                slot as int,
                old(self)@.holds[slot as int].released(hold.at(), hold.is_spilled()),
            ),
    {
        let ghost next = self@.holds[slot as int].released(hold.at(), hold.is_spilled());
        self.holds[slot].release(hold);
        let floor = self.holds[slot].floor();
        self.floors.set(slot, floor);
        assert(self@ =~= old(self)@.holding(slot as int, next));
    }

    /// Give a slot up for good, with whatever views it still held. A reader that
    /// dies thereby stops pinning; the slot itself is not handed out again.
    pub fn release(&mut self, handle: ReaderHandle)
        requires
            old(self)@.valid(),
            old(self)@.owns(handle.slot()),
        ensures
            final(self)@.valid(),
            final(self)@ == old(self)@.holding(handle.slot(), HoldView::empty()),
            final(self)@.floors[handle.slot()] == IDLE,
    {
        let slot = handle.slot;
        proof {
            lemma_empty_floor();
        }
        self.holds.set(slot, HoldStack::new());
        self.floors.set(slot, IDLE);
        assert(self@ =~= old(self)@.holding(slot as int, HoldView::empty()));
    }
}

impl Default for ReaderRegistry {
    fn default() -> (registry: Self)
        ensures
            registry@ == RegistryView::empty(),
            registry@.valid(),
    {
        ReaderRegistry::new()
    }
}

/// An empty stack is valid, and its floor is idle.
pub proof fn lemma_empty_floor()
    ensures
        HoldView::empty().floor() == IDLE,
        HoldView::empty().valid(),
{
    let floors = HoldView::empty().stack.push(IDLE);
    assert(floors.drop_last() =~= Seq::empty());
    assert(lowest(floors.drop_last()) == IDLE);
}

/// The floor of a valid stack is a real epoch, or idle.
pub proof fn lemma_floor_at_least_one(holds: HoldView)
    requires
        holds.valid(),
    ensures
        holds.floor() >= 1,
{
    let floors = holds.stack.push(holds.spill_floor);
    law_lowest_is_the_minimum(floors);
    if holds.floor() != IDLE {
        let i = choose|i: int| 0 <= i < floors.len() && floors[i] == lowest(floors);
        if i < holds.stack.len() {
            assert(holds.stack[i] >= 1);
        }
    }
}

/// The lowest published floor lies at or below every view any reader holds.
pub proof fn law_floor_min_covers_every_reader(
    registry: RegistryView,
    slot: int,
    recorded: Multiset<u64>,
    spilled: Multiset<u64>,
    epoch: u64,
)
    requires
        registry.valid(),
        0 <= slot < MAX_READERS,
        registry.holds[slot].accounts_for(recorded, spilled),
        recorded.contains(epoch) || spilled.contains(epoch),
    ensures
        registry.floor_min() <= epoch,
{
    law_floor_covers_every_view(registry.holds[slot], recorded, spilled, epoch);
    law_lowest_is_the_minimum(registry.floors);
    assert(registry.floors[slot] <= registry.holds[slot].floor());
}

/// The slowest reader sets the pace: the lowest floor is some reader's floor,
/// unless every reader is idle.
pub proof fn law_floor_min_is_the_slowest_reader(registry: RegistryView)
    requires
        registry.valid(),
        registry.floor_min() != IDLE,
    ensures
        exists|slot: int|
            0 <= slot < MAX_READERS && #[trigger] registry.floors[slot] == registry.floor_min(),
{
    law_lowest_is_the_minimum(registry.floors);
}

/// While any reader is between its announcement and its view, the lowest floor
/// is 1, below which no epoch lies.
pub proof fn law_announcement_blocks_every_sweep(registry: RegistryView, slot: int)
    requires
        registry.valid(),
        0 <= slot < MAX_READERS,
    ensures
        registry.published(slot, 1).floor_min() <= 1,
{
    law_lowest_is_the_minimum(registry.published(slot, 1).floors);
    assert(registry.published(slot, 1).floors[slot] == 1);
}

/// A registry whose readers hold nothing pins nothing.
pub proof fn law_idle_readers_pin_nothing(registry: RegistryView)
    requires
        registry.valid(),
        forall|i: int| 0 <= i < MAX_READERS ==> #[trigger] registry.floors[i] == IDLE,
    ensures
        registry.floor_min() == IDLE,
{
    law_lowest_is_the_minimum(registry.floors);
    if registry.floor_min() != IDLE {
        let i = choose|i: int|
            0 <= i < registry.floors.len() && registry.floors[i] == lowest(registry.floors);
        assert(registry.floors[i] == IDLE);
    }
}

proof fn lemma_lowest_of_one_more(floors: Seq<u64>, floor: u64)
    ensures
        lowest(floors.push(floor)) == (if floor < lowest(floors) {
            floor
        } else {
            lowest(floors)
        }),
{
    assert(floors.push(floor).drop_last() =~= floors);
}

/// Taking a view brings the floor down to its epoch, and no further, whatever else is
/// held, and a second view of the same epoch is held like any other: the stack, or the
/// count of what is beyond it, grows by one.
pub proof fn law_view_brings_the_floor_down(holds: HoldView, epoch: u64)
    requires
        holds.valid(),
        epoch >= 1,
    ensures
        ({
            let after = holds.held(epoch);
            &&& after.valid()
            &&& after.floor() == (if epoch < holds.floor() {
                epoch
            } else {
                holds.floor()
            })
            &&& holds.full() <==> holds.stack.len() >= HOLD_DEPTH
            &&& !holds.full() ==> after.stack == holds.stack.push(epoch)
            &&& !holds.full() ==> after.spilled == holds.spilled
            &&& !holds.full() ==> after.spill_floor == holds.spill_floor
            &&& holds.full() ==> after.stack == holds.stack
            &&& holds.full() && holds.spilled < u64::MAX ==> after.spilled == holds.spilled + 1
            &&& holds.full() ==> after.spill_floor <= epoch && after.spill_floor
                <= holds.spill_floor
        }),
{
    let after = holds.held(epoch);
    lemma_lowest_of_one_more(holds.stack, holds.spill_floor);
    lemma_lowest_of_one_more(after.stack, after.spill_floor);
    if !holds.full() {
        lemma_lowest_of_one_more(holds.stack, epoch);
    }
}

/// Giving a view up never brings the floor down, and takes away that view alone: one
/// occurrence of its epoch from the stack, or one from the count of what is beyond it.
/// The floor for what is beyond the stack goes only with the last of it.
pub proof fn law_release_takes_one_view_away(holds: HoldView, epoch: u64, beyond: bool)
    requires
        holds.valid(),
    ensures
        ({
            let after = holds.released(epoch, beyond);
            &&& after.valid()
            &&& after.floor() >= holds.floor()
            &&& beyond ==> after.stack == holds.stack
            &&& beyond && 0 < holds.spilled < u64::MAX ==> after.spilled == holds.spilled - 1
            &&& beyond && (holds.spilled == 0 || holds.spilled >= u64::MAX) ==> after == holds
            &&& beyond && holds.spilled == 1 ==> after.spill_floor == IDLE
            &&& beyond && holds.spilled > 1 ==> after.spill_floor == holds.spill_floor
            &&& !beyond ==> after.spilled == holds.spilled
            &&& !beyond ==> after.spill_floor == holds.spill_floor
            &&& !beyond && !holds.stack.contains(epoch) ==> after == holds
            &&& !beyond && holds.stack.contains(epoch) ==> after.stack.to_multiset()
                == holds.stack.to_multiset().remove(epoch)
        }),
{
    broadcast use vstd::seq_lib::group_to_multiset_ensures;

    let after = holds.released(epoch, beyond);
    let before = holds.stack.push(holds.spill_floor);
    let floors = after.stack.push(after.spill_floor);
    if !beyond && holds.stack.contains(epoch) {
        holds.stack.index_of_first_ensures(epoch);
    }
    law_lowest_is_the_minimum(before);
    law_lowest_is_the_minimum(floors);
    assert(before[holds.stack.len() as int] == holds.spill_floor);
    if after.floor() != IDLE {
        let i = choose|i: int| 0 <= i < floors.len() && floors[i] == lowest(floors);
        if i < after.stack.len() {
            let gone = holds.stack.index_of_first(epoch)->0;
            let j = if beyond || !holds.stack.contains(epoch) || i < gone {
                i
            } else {
                i + 1
            };
            assert(before[j] == floors[i]);
        }
    }
}

/// A slot's change of views or floor touches that slot alone. A slot that settles on its
/// views publishes their floor.
pub proof fn law_slots_are_separate(
    registry: RegistryView,
    slot: int,
    holds: HoldView,
    floor: u64,
)
    requires
        registry.valid(),
        0 <= slot < MAX_READERS,
    ensures
        ({
            let held = registry.holding(slot, holds);
            let published = registry.published(slot, floor);
            &&& held.acquired == registry.acquired && published.acquired == registry.acquired
            &&& held.holds[slot] == holds
            &&& held.floors[slot] == holds.floor()
            &&& held.settled(slot)
            &&& published.holds == registry.holds
            &&& published.floors[slot] == floor
            &&& held.floors.len() == MAX_READERS && held.holds.len() == MAX_READERS
            &&& published.floors.len() == MAX_READERS
            &&& forall|i: int|
                0 <= i < MAX_READERS && i != slot ==> held.floors[i]
                    == #[trigger] registry.floors[i]
            &&& forall|i: int|
                0 <= i < MAX_READERS && i != slot ==> published.floors[i]
                    == #[trigger] registry.floors[i]
            &&& forall|i: int|
                0 <= i < MAX_READERS && i != slot ==> held.holds[i] == #[trigger] registry.holds[i]
        }),
        registry.owns(slot) <==> slot < registry.acquired,
{
}

/// A new registry has handed out no slot, and every slot of it holds nothing and pins
/// nothing.
pub proof fn law_new_registry_is_idle(slot: int)
    requires
        0 <= slot < MAX_READERS,
    ensures
        RegistryView::empty().valid(),
        RegistryView::empty().acquired == 0,
        !RegistryView::empty().owns(slot),
        RegistryView::empty().floors[slot] == IDLE,
        RegistryView::empty().holds[slot].stack.len() == 0,
        RegistryView::empty().holds[slot].spilled == 0,
        RegistryView::empty().holds[slot].floor() == IDLE,
        RegistryView::empty().floor_min() == IDLE,
{
    lemma_empty_floor();
    law_idle_readers_pin_nothing(RegistryView::empty());
}

/// Once one of two readers of an epoch has given its view up, the other one still holds
/// the lowest floor down: nothing at or above the epoch can be freed.
pub proof fn law_other_reader_still_pins(
    registry: RegistryView,
    slot: int,
    other: int,
    epoch: u64,
    given_up: HoldView,
)
    requires
        registry.valid(),
        0 <= slot < MAX_READERS,
        0 <= other < MAX_READERS,
        slot != other,
        registry.holds[other].stack.contains(epoch),
    ensures
        registry.holding(slot, given_up).floor_min() <= epoch,
{
    let after = registry.holding(slot, given_up);
    let holds = registry.holds[other];
    let floors = holds.stack.push(holds.spill_floor);
    law_lowest_is_the_minimum(floors);
    let i = choose|i: int| 0 <= i < holds.stack.len() && holds.stack[i] == epoch;
    assert(floors[i] == epoch);
    law_lowest_is_the_minimum(after.floors);
    assert(after.floors[other] == registry.floors[other]);
}

/// The floor of some views is the lowest of their epochs and of the floor for what is
/// beyond the stack: it lies at or below each of them, and is one of them.
pub proof fn law_floor_is_the_lowest_epoch(holds: HoldView)
    ensures
        holds.floor() <= holds.spill_floor,
        forall|i: int| 0 <= i < holds.stack.len() ==> holds.floor() <= #[trigger] holds.stack[i],
        holds.floor() == IDLE || holds.floor() == holds.spill_floor || holds.stack.contains(
            holds.floor(),
        ),
        holds.stack.len() == 0 && holds.spill_floor == IDLE ==> holds.floor() == IDLE,
{
    let floors = holds.stack.push(holds.spill_floor);
    law_lowest_is_the_minimum(floors);
    assert(floors[holds.stack.len() as int] == holds.spill_floor);
    assert forall|i: int| 0 <= i < holds.stack.len() implies holds.floor()
        <= #[trigger] holds.stack[i] by {
        assert(floors[i] == holds.stack[i]);
    }
    if holds.floor() != IDLE {
        let i = choose|i: int| 0 <= i < floors.len() && floors[i] == lowest(floors);
        if i < holds.stack.len() {
            assert(holds.stack[i] == holds.floor());
        }
    }
}

/// The lowest floor of all slots lies at or below each slot's, and is one of them unless
/// all are idle.
pub proof fn law_floor_min_is_the_lowest_floor(registry: RegistryView)
    requires
        registry.floors.len() == MAX_READERS,
    ensures
        forall|i: int|
            0 <= i < MAX_READERS ==> registry.floor_min() <= #[trigger] registry.floors[i],
        registry.floor_min() == IDLE || registry.floors.contains(registry.floor_min()),
{
    law_lowest_is_the_minimum(registry.floors);
}

} // verus!
