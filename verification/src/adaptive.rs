//! `AdaptiveCell`: a seqlock slot by default, pinned blocks on demand.
//!
//! The cell starts cold and stays there while nobody wants a pinned view: a write
//! changes the inline slot and allocates nothing. A reader that asks for a pinned
//! view sets its demand flag; the writer looks at the flags before each write and
//! escalates. A hot write changes the slot and publishes a block, so that owned
//! reads never touch a block in either mode, and pinned reads get a zero-copy
//! view. When demand has been gone for `COOL_DOWN` writes the writer de-escalates
//! and frees what the floors allow; the head block stays, and so does every block
//! that is pinned.
use crate::bridge::{BridgedCell, ReadRef};
use crate::epoch::{missed_since, ReadResult};
use crate::registry::{ReaderHandle, ReaderRegistry, MAX_READERS};
use crate::seqlock::{
    begin_word, commit_word, ctrl_epoch, ctrl_hot, owned_confirms, owned_first, pinned_confirms,
    pinned_first, OwnedStep, PinnedStep,
};
use vstd::prelude::*;

verus! {

/// Hot writes without demand before the writer de-escalates, so that a reader
/// briefly between two pinned reads does not make the cell change mode on every
/// write.
pub const COOL_DOWN: u64 = 64;

/// Hot writes between two sweeps.
pub const SWEEP_PERIOD: u64 = 8192;

/// The state of an `AdaptiveRegistry`.
#[verifier::ext_equal]
pub struct AdaptiveRegistryView {
    pub floors: crate::registry::RegistryView,
    /// Which slots' readers want pinned views.
    pub demand: Seq<bool>,
}

impl AdaptiveRegistryView {
    /// Nobody registered, nobody wants anything.
    pub open spec fn empty() -> Self {
        AdaptiveRegistryView {
            floors: crate::registry::RegistryView::empty(),
            demand: Seq::new(MAX_READERS as nat, |i: int| false),
        }
    }

    /// Valid floors, one demand flag per slot, and no demand on a slot that was
    /// not handed out.
    pub open spec fn valid(self) -> bool {
        &&& self.floors.valid()
        &&& self.demand.len() == MAX_READERS
        &&& forall|i: int|
            0 <= i < MAX_READERS && #[trigger] self.demand[i] ==> i < self.floors.acquired
    }

    /// Whether the writer sees demand: somebody has registered, and somebody
    /// wants a pinned view.
    pub open spec fn demanded(self) -> bool {
        self.floors.acquired > 0 && self.demand.contains(true)
    }

    /// The state in which a slot's demand flag is as given.
    pub open spec fn demanding(self, slot: int, wanted: bool) -> Self {
        AdaptiveRegistryView { floors: self.floors, demand: self.demand.update(slot, wanted) }
    }

    /// The state with these floors.
    pub open spec fn with_floors(self, floors: crate::registry::RegistryView) -> Self {
        AdaptiveRegistryView { floors, demand: self.demand }
    }
}

/// A `ReaderRegistry` plus a demand flag per slot.
pub struct AdaptiveRegistry {
    pub floors: ReaderRegistry,
    demand: Vec<u64>,
}

impl View for AdaptiveRegistry {
    type V = AdaptiveRegistryView;

    closed spec fn view(&self) -> AdaptiveRegistryView {
        AdaptiveRegistryView {
            floors: self.floors@,
            demand: self.demand@.map_values(|d: u64| d != 0),
        }
    }
}

impl AdaptiveRegistry {
    /// A registry nobody has acquired a slot of.
    pub fn new() -> (registry: Self)
        ensures
            registry@ == AdaptiveRegistryView::empty(),
            registry@.valid(),
    {
        let mut demand: Vec<u64> = Vec::new();
        let mut i: usize = 0;
        while i < MAX_READERS
            invariant
                i <= MAX_READERS,
                demand@.len() == i,
                forall|k: int| 0 <= k < i ==> demand@[k] == 0,
            decreases MAX_READERS - i,
        {
            demand.push(0);
            i = i + 1;
        }
        let registry = AdaptiveRegistry { floors: ReaderRegistry::new(), demand };
        assert(registry@ =~= AdaptiveRegistryView::empty());
        registry
    }

    /// Claim a slot, one per reader for the reader's lifetime.
    pub fn acquire(&mut self) -> (handle: AdaptiveHandle)
        requires
            old(self)@.valid(),
            old(self)@.floors.acquired < MAX_READERS,
        ensures
            final(self)@.valid(),
            final(self)@ == old(self)@.with_floors(
                (crate::registry::RegistryView {
                    acquired: old(self)@.floors.acquired + 1,
                    ..old(self)@.floors
                }),
            ),
            handle.slot() == old(self)@.floors.acquired,
    {
        let floors = self.floors.acquire();
        AdaptiveHandle { floors }
    }

    /// Slots handed out so far.
    pub fn acquired(&self) -> (n: usize)
        ensures
            n == self@.floors.acquired,
    {
        self.floors.acquired()
    }

    /// Whether any reader currently wants pinned views.
    pub fn any_demand(&self) -> (any: bool)
        ensures
            any == self@.demand.contains(true),
    {
        let mut i: usize = 0;
        while i < self.demand.len()
            invariant
                i <= self.demand@.len(),
                forall|k: int| 0 <= k < i ==> self.demand@[k] == 0,
            decreases self.demand@.len() - i,
        {
            if self.demand[i] != 0 {
                assert(self@.demand[i as int]);
                return true;
            }
            i = i + 1;
        }
        assert forall|k: int| 0 <= k < self@.demand.len() implies !self@.demand[k] by {
            assert(self.demand@[k] == 0);
        }
        false
    }

    /// Give a slot up for good: its demand is withdrawn first, then its floor.
    pub fn release(&mut self, handle: AdaptiveHandle)
        requires
            old(self)@.valid(),
            old(self)@.floors.owns(handle.slot()),
        ensures
            final(self)@.valid(),
            final(self)@ == old(self)@.demanding(handle.slot(), false).with_floors(
                old(self)@.floors.holding(handle.slot(), crate::registry::HoldView::empty()),
            ),
    {
        handle.release_demand(self);
        self.floors.release(handle.floors);
    }
}

impl Default for AdaptiveRegistry {
    fn default() -> (registry: Self)
        ensures
            registry@ == AdaptiveRegistryView::empty(),
            registry@.valid(),
    {
        AdaptiveRegistry::new()
    }
}

/// A reader's claim to one slot and its demand flag, until the registry's `release`.
pub struct AdaptiveHandle {
    floors: ReaderHandle,
}

impl AdaptiveHandle {
    /// The slot claimed.
    pub closed spec fn slot(self) -> int {
        self.floors.slot()
    }

    /// The slot claimed.
    pub fn slot_index(&self) -> (slot: usize)
        ensures
            slot == self.slot(),
    {
        self.floors.slot_index()
    }

    /// Withdraw this reader's demand. Views already held stay valid: their
    /// floors protect them, and the cell may merely de-escalate around them.
    pub fn release_demand(&self, registry: &mut AdaptiveRegistry)
        requires
            old(registry)@.valid(),
            old(registry)@.floors.owns(self.slot()),
        ensures
            final(registry)@.valid(),
            final(registry)@ == old(registry)@.demanding(self.slot(), false),
            final(registry)@.demand == old(registry)@.demand.update(self.slot(), false),
            final(registry)@.floors == old(registry)@.floors,
    {
        let slot = self.floors.slot_index();
        registry.demand.set(slot, 0);
        assert(registry@ =~= old(registry)@.demanding(slot as int, false));
    }

    /// Make this reader's demand known. The flag is only stored if it is not set
    /// already.
    fn signal_demand(&self, registry: &mut AdaptiveRegistry)
        requires
            old(registry)@.valid(),
            old(registry)@.floors.owns(self.slot()),
        ensures
            final(registry)@.valid(),
            final(registry)@ == old(registry)@.demanding(self.slot(), true),
            final(registry)@.demanded(),
    {
        let slot = self.floors.slot_index();
        if registry.demand[slot] == 0 {
            registry.demand.set(slot, 1);
        }
        assert(registry@.demand[slot as int]);
        assert(registry@ =~= old(registry)@.demanding(slot as int, true));
    }
}

/// The state of an `AdaptiveCell`.
#[verifier::ext_equal]
pub struct AdaptiveView<T> {
    /// Completed writes, in both modes.
    pub epoch: u64,
    /// The mode.
    pub hot: bool,
    /// The value in the slot.
    pub value: Option<T>,
    /// The blocks behind pinned views.
    pub blocks: crate::bridge::BridgeView<T>,
    /// Consecutive hot writes without demand.
    pub cool_streak: u64,
    /// Hot writes so far.
    pub hot_writes: u64,
}

impl<T> AdaptiveView<T> {
    /// Cold, and never written.
    pub open spec fn empty() -> Self {
        AdaptiveView {
            epoch: 0,
            hot: false,
            value: None,
            blocks: crate::bridge::BridgeView::empty(),
            cool_streak: 0,
            hot_writes: 0,
        }
    }

    /// The slot is filled once something was written; the streak lies within the
    /// hysteresis window, and is zero on a cold cell; every hot write made one
    /// publication of blocks; and the head block of a hot cell holds the value
    /// that is in the slot.
    pub open spec fn valid(self) -> bool {
        &&& self.epoch < crate::seqlock::EPOCH_LIMIT
        &&& self.value is Some <==> self.epoch > 0
        &&& self.blocks.valid()
        &&& self.blocks.epoch == self.hot_writes
        &&& self.hot_writes <= self.epoch
        &&& self.cool_streak <= COOL_DOWN
        &&& !self.hot ==> self.cool_streak == 0
        &&& self.hot ==> self.value is Some && self.blocks.head == self.value
    }

    /// Whether the next write is a hot one.
    pub open spec fn goes_hot(self, demand: bool) -> bool {
        demand || (self.hot && self.cool_streak < COOL_DOWN)
    }

    /// The state after a write that saw `demand` and the lowest floor `floor`.
    pub open spec fn wrote(self, value: T, demand: bool, floor: u64) -> Self {
        let epoch = (self.epoch + 1) as u64;
        if self.goes_hot(demand) {
            let hot_writes = (self.hot_writes + 1) as u64;
            let blocks = self.blocks.wrote(value);
            AdaptiveView {
                epoch,
                hot: true,
                value: Some(value),
                blocks: if hot_writes % SWEEP_PERIOD == 0 {
                    blocks.swept(floor)
                } else {
                    blocks
                },
                cool_streak: if demand {
                    0
                } else {
                    (self.cool_streak + 1) as u64
                },
                hot_writes,
            }
        } else {
            AdaptiveView {
                epoch,
                hot: false,
                value: Some(value),
                blocks: if self.hot {
                    self.blocks.swept(floor)
                } else {
                    self.blocks
                },
                cool_streak: 0,
                hot_writes: self.hot_writes,
            }
        }
    }

    /// The state after a sweep on its own.
    pub open spec fn swept(self, floor: u64) -> Self {
        AdaptiveView { blocks: self.blocks.swept(floor), ..self }
    }
}

/// One cell, two engines, picked per write by the single writer.
pub struct AdaptiveCell<T: Copy> {
    ctrl: u64,
    slot: Option<T>,
    hot: BridgedCell<T>,
    cool_streak: u64,
    hot_writes: u64,
}

impl<T: Copy> View for AdaptiveCell<T> {
    type V = AdaptiveView<T>;

    closed spec fn view(&self) -> AdaptiveView<T> {
        AdaptiveView {
            epoch: crate::seqlock::word_epoch(self.ctrl) as u64,
            hot: crate::seqlock::word_hot(self.ctrl),
            value: self.slot,
            blocks: self.hot@,
            cool_streak: self.cool_streak,
            hot_writes: self.hot_writes,
        }
    }
}

impl<T: Copy> AdaptiveCell<T> {
    /// No write is under way, and the blocks are well stored.
    pub closed spec fn settled(self) -> bool {
        self.hot.wf() && !crate::seqlock::word_busy(self.ctrl)
    }

    /// The state is valid and settled.
    pub open spec fn wf(self) -> bool {
        self@.valid() && self.settled()
    }

    /// A cold cell that was never written.
    pub fn new() -> (cell: Self)
        ensures
            cell.wf(),
            cell@ == AdaptiveView::<T>::empty(),
    {
        AdaptiveCell { ctrl: 0, slot: None, hot: BridgedCell::new(), cool_streak: 0, hot_writes: 0 }
    }

    /// Current mode.
    pub fn is_hot(&self) -> (hot: bool)
        ensures
            hot == self@.hot,
    {
        ctrl_hot(self.ctrl)
    }

    /// Completed writes.
    pub fn epoch(&self) -> (epoch: u64)
        ensures
            epoch == self@.epoch,
    {
        ctrl_epoch(self.ctrl)
    }

    /// Blocks retired and not freed yet.
    pub fn retired_len(&self) -> (n: usize)
        ensures
            n == self@.blocks.retired.len(),
    {
        self.hot.retired_len()
    }

    /// Sweep by hand; writes sweep now and then by themselves. Returns the
    /// number of blocks freed.
    pub fn reclaim(&mut self, registry: &AdaptiveRegistry) -> (freed: usize)
        requires
            old(self).wf(),
        ensures
            final(self).wf(),
            final(self)@ == old(self)@.swept(registry@.floors.floor_min()),
            freed == old(self)@.blocks.retired.len() - final(self)@.blocks.retired.len(),
    {
        self.hot.reclaim(&registry.floors)
    }

    /// First step of a write: store the in-progress word.
    fn begin(&mut self, hot: bool)
        requires
            !crate::seqlock::word_busy(old(self).ctrl),
            crate::seqlock::word_epoch(old(self).ctrl) + 1 < crate::seqlock::EPOCH_LIMIT,
        ensures
            final(self).ctrl == crate::seqlock::word(
                crate::seqlock::word_epoch(old(self).ctrl),
                true,
                hot,
            ),
            *final(self) == (AdaptiveCell { ctrl: final(self).ctrl, ..*old(self) }),
    {
        self.ctrl = begin_word(self.ctrl, hot);
    }

    /// Second step: change the slot, while the in-progress word stands.
    fn fill(&mut self, value: T)
        requires
            crate::seqlock::word_busy(old(self).ctrl),
        ensures
            *final(self) == (AdaptiveCell { slot: Some(value), ..*old(self) }),
    {
        self.slot = Some(value);
    }

    /// Third step of a hot write: publish the block of the value in the slot, while
    /// the in-progress word stands.
    fn publish(&mut self, value: T)
        requires
            crate::seqlock::word_busy(old(self).ctrl),
            crate::seqlock::word_hot(old(self).ctrl),
            old(self).slot == Some(value),
            old(self).hot.wf(),
            old(self).hot@.epoch < u64::MAX,
        ensures
            final(self).hot.wf(),
            final(self).hot@ == old(self).hot@.wrote(value),
            *final(self) == (AdaptiveCell { hot: final(self).hot, ..*old(self) }),
    {
        self.hot.write(value);
    }

    /// Last step: store the completed word. A hot write has published its block by
    /// then, so a reader that sees the word finds a fresh head. `c` is the word
    /// before the write.
    fn commit(&mut self, c: u64, hot: bool)
        requires
            !crate::seqlock::word_busy(c),
            crate::seqlock::word_epoch(c) + 1 < crate::seqlock::EPOCH_LIMIT,
            old(self).ctrl == crate::seqlock::word(crate::seqlock::word_epoch(c), true, hot),
            old(self).slot is Some,
            hot ==> old(self).hot@.head == old(self).slot,
        ensures
            final(self).ctrl == crate::seqlock::word(
                crate::seqlock::word_epoch(c) + 1,
                false,
                hot,
            ),
            *final(self) == (AdaptiveCell { ctrl: final(self).ctrl, ..*old(self) }),
    {
        self.ctrl = commit_word(c, hot);
    }

    /// Publish a value. Demand makes the write a hot one; without demand a cold
    /// cell stays cold, and a hot cell stays hot for the rest of its hysteresis
    /// window. Returns the new epoch.
    #[verifier::spinoff_prover]
    #[verifier::rlimit(40)]
    pub fn write(&mut self, value: T, registry: &AdaptiveRegistry) -> (epoch: u64)
        requires
            old(self).wf(),
            old(self)@.epoch + 1 < crate::seqlock::EPOCH_LIMIT,
        ensures
            final(self).wf(),
            final(self)@ == old(self)@.wrote(
                value,
                registry@.demanded(),
                registry@.floors.floor_min(),
            ),
            epoch == final(self)@.epoch,
            final(self)@.epoch == old(self)@.epoch + 1,
            final(self)@.value == Some(value),
    {
        let c = self.ctrl;
        let hot_now = ctrl_hot(c);
        let demand = registry.floors.has_any_reader() && registry.any_demand();
        let go_hot = if demand {
            self.cool_streak = 0;
            true
        } else if hot_now {
            self.cool_streak = self.cool_streak + 1;
            self.cool_streak <= COOL_DOWN
        } else {
            false
        };
        if go_hot {
            self.begin(true);
            self.fill(value);
            self.publish(value);
            self.commit(c, true);
            self.hot_writes = self.hot_writes + 1;
            if self.hot_writes % SWEEP_PERIOD == 0 {
                self.hot.reclaim(&registry.floors);
            }
        } else {
            self.begin(false);
            self.fill(value);
            self.commit(c, false);
            if hot_now {
                // The head block is not freed; it only stops being published
                // through.
                self.cool_streak = 0;
                self.hot.reclaim(&registry.floors);
            }
        }
        ctrl_epoch(self.ctrl)
    }

    /// Copy the value out of the slot, whatever the mode. Pins nothing and looks
    /// at no block.
    pub fn read(&self, last_epoch: u64) -> (result: ReadResult<T>)
        requires
            self.wf(),
            self@.epoch > 0 ==> last_epoch < u64::MAX,
        ensures
            match result {
                ReadResult::Empty => self@.epoch == 0,
                ReadResult::Value { value, epoch, missed } => {
                    &&& self@.value == Some(value)
                    &&& epoch == self@.epoch
                    &&& epoch > 0
                    &&& missed == crate::epoch::missed_between(epoch as int, last_epoch as int)
                },
            },
    {
        // No write overlaps a shared borrow, so the first pass is confirmed.
        loop
            invariant
                self.wf(),
                self@.epoch > 0 ==> last_epoch < u64::MAX,
            decreases 0nat,
        {
            let c0 = self.ctrl;
            match owned_first(c0) {
                OwnedStep::Empty => {
                    return ReadResult::Empty;
                },
                OwnedStep::Restart => {
                    assert(false);
                },
                OwnedStep::Copy => {
                    let copy = self.slot;
                    let c1 = self.ctrl;
                    if owned_confirms(c0, c1) {
                        if let Some(value) = copy {
                            let epoch = ctrl_epoch(c0);
                            let missed = missed_since(epoch, last_epoch);
                            return ReadResult::Value { value, epoch, missed };
                        }
                    }
                    assert(false);
                },
            }
        }
    }

    /// Take a pinned view: a zero-copy one if the cell is hot, a copy if it is
    /// cold. Signals the reader's demand first, and for good, so the writer
    /// escalates on its next write even if this call fell back to a copy.
    pub fn read_pinned(
        &self,
        registry: &mut AdaptiveRegistry,
        handle: &AdaptiveHandle,
        last_epoch: u64,
    ) -> (view: Option<Pinned<T>>)
        requires
            self.wf(),
            old(registry)@.valid(),
            old(registry)@.floors.owns(handle.slot()),
            self@.epoch > 0 ==> last_epoch < u64::MAX,
        ensures
            final(registry)@.valid(),
            final(registry)@ == old(registry)@.demanding(handle.slot(), true).with_floors(
                if self@.hot {
                    self@.blocks.viewed(old(registry)@.floors, handle.slot())
                } else {
                    old(registry)@.floors
                },
            ),
            final(registry)@.demanded(),
            view is None <==> self@.epoch == 0,
            view matches Some(p) ==> {
                &&& p.epoch == self@.epoch
                &&& p.missed == crate::epoch::missed_between(
                    self@.epoch as int,
                    last_epoch as int,
                )
                &&& (p.kind is Ref) == self@.hot
                &&& p.shows(self@, self@.value->0)
                &&& p.kind matches PinnedKind::Ref(r) ==> r.taken_from(
                    self@.blocks,
                    old(registry)@.floors,
                    handle.slot(),
                    0,
                )
            },
    {
        handle.signal_demand(registry);
        let ghost signalled = registry@;
        // No write overlaps a shared borrow, so the first pass is confirmed.
        loop
            invariant
                self.wf(),
                registry@ == signalled,
                signalled == old(registry)@.demanding(handle.slot(), true),
                signalled.valid(),
                signalled.demanded(),
                signalled.floors.owns(handle.slot()),
                self@.epoch > 0 ==> last_epoch < u64::MAX,
            decreases 0nat,
        {
            let c0 = self.ctrl;
            match pinned_first(c0) {
                PinnedStep::Empty => {
                    assert(registry@ =~= signalled.with_floors(signalled.floors));
                    return None;
                },
                PinnedStep::Restart => {
                    assert(false);
                },
                PinnedStep::PinHead => {
                    let epoch = ctrl_epoch(c0);
                    let missed = missed_since(epoch, last_epoch);
                    match self.hot.read_ref_copied(&mut registry.floors, &handle.floors, 0) {
                        Some(r) => {
                            let c1 = self.ctrl;
                            if pinned_confirms(c0, c1) {
                                assert(registry@.demand =~= signalled.demand);
                                return Some(Pinned { kind: PinnedKind::Ref(r), epoch, missed });
                            }
                            assert(false);
                        },
                        None => {
                            assert(false);
                        },
                    }
                },
                PinnedStep::Copy => {
                    let epoch = ctrl_epoch(c0);
                    let missed = missed_since(epoch, last_epoch);
                    let copy = self.slot;
                    let c1 = self.ctrl;
                    if pinned_confirms(c0, c1) {
                        if let Some(value) = copy {
                            assert(registry@ =~= signalled.with_floors(signalled.floors));
                            let kind = PinnedKind::Copied(Box::new(value));
                            return Some(Pinned { kind, epoch, missed });
                        }
                    }
                    assert(false);
                },
            }
        }
    }

    /// A view taken from the blocks alone, whatever the mode. It shows the value
    /// of the last hot write. Meant for measuring what the mode check costs.
    pub fn bench_read_ref_raw(
        &self,
        registry: &mut AdaptiveRegistry,
        handle: &AdaptiveHandle,
    ) -> (view: Option<ReadRef<T>>)
        requires
            self.wf(),
            old(registry)@.valid(),
            old(registry)@.floors.owns(handle.slot()),
        ensures
            final(registry)@.valid(),
            final(registry)@ == old(registry)@.with_floors(
                self@.blocks.viewed(old(registry)@.floors, handle.slot()),
            ),
            view is None <==> self@.hot_writes == 0,
            view matches Some(r) ==> {
                &&& r.taken_from(self@.blocks, old(registry)@.floors, handle.slot(), 0)
                &&& r.shows(self@.blocks, self@.blocks.head->0)
            },
    {
        let view = self.hot.read_ref_copied(&mut registry.floors, &handle.floors, 0);
        assert(registry@.demand =~= old(registry)@.demand);
        view
    }
}

/// How a pinned read was served.
pub enum PinnedKind<T> {
    /// A zero-copy view of a block, pinned by its floor (hot mode).
    Ref(ReadRef<T>),
    /// A copy of the slot (cold mode); the writer escalates on its next write.
    Copied(Box<T>),
}

/// What a pinned read returns. A zero-copy view pins until it is released; going out
/// of scope does not release it.
pub struct Pinned<T> {
    pub kind: PinnedKind<T>,
    /// Epoch of the cell at the time of the read.
    pub epoch: u64,
    /// Writes missed before this read.
    pub missed: u64,
}

impl<T> Pinned<T> {
    /// Whether the view shows this value, given the state of its cell.
    pub open spec fn shows(self, cell: AdaptiveView<T>, value: T) -> bool {
        match self.kind {
            PinnedKind::Ref(r) => r.shows(cell.blocks, value),
            PinnedKind::Copied(copy) => value == *copy,
        }
    }

    /// Whether this is a zero-copy view.
    pub fn is_zero_copy(&self) -> (zero_copy: bool)
        ensures
            zero_copy == (self.kind is Ref),
    {
        matches!(self.kind, PinnedKind::Ref(_))
    }
}

impl<T: Copy> Pinned<T> {
    /// Look at the value. `cell` is the cell the view was taken from; it has the
    /// block of a zero-copy view for as long as the view is held.
    pub fn get<'c>(&'c self, cell: &'c AdaptiveCell<T>) -> (value: Option<&'c T>)
        requires
            cell.wf(),
        ensures
            match value {
                Some(v) => self.shows(cell@, *v),
                None => forall|v: T| !self.shows(cell@, v),
            },
            self.kind matches PinnedKind::Copied(copy) ==> value == Some(&*copy),
    {
        match &self.kind {
            PinnedKind::Ref(r) => r.get(&cell.hot),
            PinnedKind::Copied(copy) => Some(&**copy),
        }
    }

    /// Give the view up. A zero-copy view stops pinning; a copy just goes away.
    pub fn release(self, registry: &mut AdaptiveRegistry)
        requires
            old(registry)@.valid(),
            self.kind matches PinnedKind::Ref(r) ==> old(registry)@.floors.owns(r.reader()),
        ensures
            final(registry)@.valid(),
            final(registry)@ == (match self.kind {
                PinnedKind::Ref(r) if r.pins() => old(registry)@.with_floors(
                    old(registry)@.floors.holding(
                        r.reader(),
                        old(registry)@.floors.holds[r.reader()].released(
                            r.pinned_epoch(),
                            r.is_spilled(),
                        ),
                    ),
                ),
                _ => old(registry)@,
            }),
    {
        match self.kind {
            PinnedKind::Ref(r) => {
                r.release(&mut registry.floors);
                assert(registry@.demand =~= old(registry)@.demand);
            },
            PinnedKind::Copied(_) => {},
        }
    }
}

impl<T: Copy> Default for AdaptiveCell<T> {
    fn default() -> (cell: Self)
        ensures
            cell.wf(),
            cell@ == AdaptiveView::<T>::empty(),
    {
        AdaptiveCell::new()
    }
}

/// One write, with the demand and the lowest floor it saw.
pub struct AdaptiveWrite<T> {
    pub value: T,
    pub demand: bool,
    pub floor: u64,
}

impl<T> AdaptiveView<T> {
    /// The state after a run of writes.
    pub open spec fn after(self, run: Seq<AdaptiveWrite<T>>) -> Self
        decreases run.len(),
    {
        if run.len() == 0 {
            self
        } else {
            let last = run.last();
            self.after(run.drop_last()).wrote(last.value, last.demand, last.floor)
        }
    }
}

/// A run of writes may be taken in two parts.
pub proof fn lemma_after_splits<T>(cell: AdaptiveView<T>, run: Seq<AdaptiveWrite<T>>, m: int)
    requires
        0 <= m <= run.len(),
    ensures
        cell.after(run) == cell.after(run.take(m)).after(run.skip(m)),
    decreases run.len() - m,
{
    if m == run.len() {
        assert(run.take(m) =~= run);
    } else {
        let prefix = run.drop_last();
        lemma_after_splits(cell, prefix, m);
        assert(prefix.take(m) =~= run.take(m));
        assert(run.skip(m).drop_last() =~= prefix.skip(m));
    }
}

/// Validity survives every write. In particular the slot is current in both
/// modes, and the head block of a hot cell holds what the slot holds.
pub proof fn law_writes_keep_validity<T>(
    cell: AdaptiveView<T>,
    value: T,
    demand: bool,
    floor: u64,
)
    requires
        cell.valid(),
        cell.epoch + 1 < crate::seqlock::EPOCH_LIMIT,
    ensures
        cell.wrote(value, demand, floor).valid(),
        cell.wrote(value, demand, floor).value == Some(value),
        cell.wrote(value, demand, floor).hot ==> cell.wrote(value, demand, floor).blocks.head
            == Some(value),
        cell.wrote(value, demand, floor).epoch == cell.epoch + 1,
{
    let blocks = if cell.goes_hot(demand) {
        crate::bridge::law_steps_keep_validity(
            cell.blocks,
            crate::bridge::BridgeStep::Write(value),
        );
        cell.blocks.wrote(value)
    } else {
        cell.blocks
    };
    crate::bridge::law_steps_keep_validity(blocks, crate::bridge::BridgeStep::<T>::Sweep(floor));
}

/// Every write counts, in either mode, and an owned read finds the last one.
pub proof fn law_owned_read_finds_latest<T>(cell: AdaptiveView<T>, run: Seq<AdaptiveWrite<T>>)
    requires
        cell.valid(),
        cell.epoch + run.len() < crate::seqlock::EPOCH_LIMIT,
    ensures
        cell.after(run).valid(),
        cell.after(run).epoch == cell.epoch + run.len(),
        run.len() > 0 ==> cell.after(run).value == Some(run.last().value),
    decreases run.len(),
{
    if run.len() > 0 {
        let last = run.last();
        law_owned_read_finds_latest(cell, run.drop_last());
        law_writes_keep_validity(
            cell.after(run.drop_last()),
            last.value,
            last.demand,
            last.floor,
        );
    }
}

/// A write that sees demand is a hot one, from any state.
pub proof fn law_demand_escalates<T>(cell: AdaptiveView<T>, value: T, floor: u64)
    ensures
        cell.wrote(value, true, floor).hot,
        cell.wrote(value, true, floor).cool_streak == 0,
{
}

/// A cold cell that sees no demand never escalates, and makes, retires and
/// frees no block.
pub proof fn law_no_demand_stays_cold<T>(cell: AdaptiveView<T>, run: Seq<AdaptiveWrite<T>>)
    requires
        !cell.hot,
        forall|i: int| 0 <= i < run.len() ==> !(#[trigger] run[i]).demand,
    ensures
        !cell.after(run).hot,
        cell.after(run).blocks == cell.blocks,
        cell.after(run).hot_writes == cell.hot_writes,
    decreases run.len(),
{
    if run.len() > 0 {
        let prefix = run.drop_last();
        assert(!run.last().demand);
        assert(forall|i: int| 0 <= i < prefix.len() ==> prefix[i] == run[i]);
        law_no_demand_stays_cold(cell, prefix);
    }
}

/// The hysteresis is exact: over a run of writes without demand, a hot cell is
/// hot for as long as its streak and the run together stay within the window,
/// and cold from then on.
pub proof fn law_cools_down_after_the_window<T>(cell: AdaptiveView<T>, run: Seq<AdaptiveWrite<T>>)
    requires
        cell.cool_streak <= COOL_DOWN,
        forall|i: int| 0 <= i < run.len() ==> !(#[trigger] run[i]).demand,
    ensures
        cell.after(run).hot <==> cell.hot && cell.cool_streak + run.len() <= COOL_DOWN,
        cell.after(run).hot ==> cell.after(run).cool_streak == cell.cool_streak + run.len(),
    decreases run.len(),
{
    if run.len() > 0 {
        let prefix = run.drop_last();
        assert(!run.last().demand);
        assert(forall|i: int| 0 <= i < prefix.len() ==> prefix[i] == run[i]);
        law_cools_down_after_the_window(cell, prefix);
    }
}

/// The mode of the last write of a run, from demand alone. Let `m` be the last write
/// that saw demand: the cell is hot exactly if no more than `COOL_DOWN` writes came
/// after it. Where no write saw demand, a cell that was cold is cold.
pub proof fn law_mode_follows_demand<T>(
    cell: AdaptiveView<T>,
    run: Seq<AdaptiveWrite<T>>,
    m: int,
)
    requires
        -1 <= m < run.len(),
        m >= 0 ==> run[m].demand,
        forall|i: int| m < i < run.len() ==> !(#[trigger] run[i]).demand,
    ensures
        m >= 0 ==> (cell.after(run).hot <==> run.len() - 1 - m <= COOL_DOWN),
        m < 0 && !cell.hot ==> !cell.after(run).hot,
{
    if m < 0 {
        if !cell.hot {
            law_no_demand_stays_cold(cell, run);
        }
    } else {
        let head = run.take(m + 1);
        let tail = run.skip(m + 1);
        lemma_after_splits(cell, run, m + 1);
        assert(head.last() == run[m]);
        assert(cell.after(head).hot && cell.after(head).cool_streak == 0);
        assert(forall|i: int| 0 <= i < tail.len() ==> tail[i] == run[m + 1 + i]);
        law_cools_down_after_the_window(cell.after(head), tail);
    }
}

/// A de-escalation frees what no reader can look at and leaves the head alone;
/// with every reader idle nothing stays retired.
pub proof fn law_deescalation_sweeps<T>(cell: AdaptiveView<T>, value: T, floor: u64)
    requires
        cell.valid(),
        cell.hot,
        !cell.goes_hot(false),
    ensures
        !cell.wrote(value, false, floor).hot,
        cell.wrote(value, false, floor).blocks == cell.blocks.swept(floor),
        cell.wrote(value, false, floor).blocks.head == cell.blocks.head,
        floor == crate::registry::IDLE ==> cell.wrote(value, false, floor).blocks.retired.len()
            == 0,
{
    crate::bridge::law_idle_sweep_drains(cell.blocks);
}

/// A pinned view of a hot cell shows the value that the cell held when the view
/// was taken: the block it names is alive and holds that value.
pub proof fn law_pinned_view_shows_the_value<T>(cell: AdaptiveView<T>)
    requires
        cell.valid(),
        cell.hot,
        !crate::bridge::blockless::<T>(),
    ensures
        cell.blocks.has_block(cell.blocks.epoch, cell.value->0),
{
}

/// A view shows at most one value. So what a pinned read shows right away is what an
/// owned read returns.
pub proof fn law_pinned_read_shows_the_owned_value<T>(
    cell: AdaptiveView<T>,
    view: Pinned<T>,
    a: T,
    b: T,
)
    requires
        cell.valid(),
        view.shows(cell, a),
        view.shows(cell, b),
    ensures
        a == b,
{
    if let PinnedKind::Ref(r) = view.kind {
        if r.pins() {
            crate::bridge::law_block_is_unique(cell.blocks, r.pinned_epoch(), a, b);
        }
    }
}

/// A pinned view does not move under its reader: while its pin keeps the lowest
/// floor at or below its epoch, no run of writes, whatever modes it passes
/// through, frees or changes the block.
pub proof fn law_pinned_view_survives<T>(
    cell: AdaptiveView<T>,
    run: Seq<AdaptiveWrite<T>>,
    epoch: u64,
    value: T,
)
    requires
        cell.valid(),
        cell.epoch + run.len() < crate::seqlock::EPOCH_LIMIT,
        cell.blocks.has_block(epoch, value),
        forall|i: int| 0 <= i < run.len() ==> (#[trigger] run[i]).floor <= epoch,
    ensures
        cell.after(run).blocks.has_block(epoch, value),
    decreases run.len(),
{
    if run.len() > 0 {
        let prefix = run.drop_last();
        let last = run.last();
        assert(last.floor <= epoch);
        assert(forall|i: int| 0 <= i < prefix.len() ==> prefix[i] == run[i]);
        law_pinned_view_survives(cell, prefix, epoch, value);
        law_owned_read_finds_latest(cell, prefix);
        let before = cell.after(prefix);
        let blocks = if before.goes_hot(last.demand) {
            crate::bridge::lemma_step_keeps_block(
                before.blocks,
                crate::bridge::BridgeStep::Write(last.value),
                epoch,
                value,
            );
            before.blocks.wrote(last.value)
        } else {
            before.blocks
        };
        crate::bridge::law_sweep_honours_the_floor(blocks, last.floor, epoch, value);
    }
}

/// A sweep by hand spares pinned views too, and changes nothing but the blocks.
pub proof fn law_reclaim_spares_pinned_views<T>(
    cell: AdaptiveView<T>,
    floor: u64,
    epoch: u64,
    value: T,
)
    requires
        cell.valid(),
        cell.blocks.has_block(epoch, value),
        floor <= epoch,
    ensures
        cell.swept(floor).valid(),
        cell.swept(floor).blocks.has_block(epoch, value),
        cell.swept(floor).value == cell.value,
        cell.swept(floor).epoch == cell.epoch,
        cell.swept(floor).hot == cell.hot,
{
    crate::bridge::law_sweep_honours_the_floor(cell.blocks, floor, epoch, value);
}

/// The writer sees demand exactly when some reader's flag is set, and then its next
/// write is a hot one.
pub proof fn law_any_demand_makes_the_next_write_hot<T>(
    cell: AdaptiveView<T>,
    registry: AdaptiveRegistryView,
    value: T,
    floor: u64,
)
    requires
        registry.valid(),
    ensures
        registry.demanded() == registry.demand.contains(true),
        registry.demand.contains(true) ==> cell.wrote(value, registry.demanded(), floor).hot,
{
    if registry.demand.contains(true) {
        let i = choose|i: int| 0 <= i < registry.demand.len() && registry.demand[i] == true;
        assert(registry.demand[i]);
    }
}

/// A reader's demand is sticky: only its own withdrawal, or giving its slot up,
/// clears the flag, and while it is set the writer sees demand.
pub proof fn law_demand_is_seen(registry: AdaptiveRegistryView, slot: int)
    requires
        registry.valid(),
        registry.floors.owns(slot),
    ensures
        registry.demanding(slot, true).demanded(),
        forall|other: int|
            0 <= other < MAX_READERS && other != slot ==> registry.demanding(
                slot,
                true,
            ).demanding(other, false).demanded(),
{
    assert(registry.demanding(slot, true).demand[slot]);
    assert forall|other: int|
        0 <= other < MAX_READERS && other != slot implies registry.demanding(slot, true).demanding(
        other,
        false,
    ).demanded() by {
        assert(registry.demanding(slot, true).demanding(other, false).demand[slot]);
    }
}

/// When the only reader that wanted pinned views withdraws, demand is gone.
pub proof fn law_last_withdrawal_ends_demand(registry: AdaptiveRegistryView, slot: int)
    requires
        registry.valid(),
        0 <= slot < MAX_READERS,
        forall|other: int|
            0 <= other < MAX_READERS && other != slot ==> !#[trigger] registry.demand[other],
    ensures
        !registry.demanding(slot, false).demanded(),
{
}

/// Setting or clearing a demand flag changes that flag and nothing else: no other
/// reader's flag, whatever the others are, and no floor.
pub proof fn law_demand_flags_are_separate(
    registry: AdaptiveRegistryView,
    slot: int,
    wanted: bool,
    floors: crate::registry::RegistryView,
)
    requires
        registry.valid(),
        0 <= slot < MAX_READERS,
    ensures
        registry.demanding(slot, wanted).demand[slot] == wanted,
        registry.demanding(slot, wanted).demand.len() == MAX_READERS,
        forall|k: int|
            0 <= k < MAX_READERS && k != slot ==> registry.demanding(slot, wanted).demand[k]
                == #[trigger] registry.demand[k],
        registry.demanding(slot, wanted).floors == registry.floors,
        registry.with_floors(floors).demand == registry.demand,
        registry.with_floors(floors).floors == floors,
{
}

/// The state after the readers of some slots have withdrawn their demand, in order.
pub open spec fn withdrawn(
    registry: AdaptiveRegistryView,
    slots: Seq<int>,
) -> AdaptiveRegistryView
    decreases slots.len(),
{
    if slots.len() == 0 {
        registry
    } else {
        withdrawn(registry, slots.drop_last()).demanding(slots.last(), false)
    }
}

/// Once every reader that signalled has withdrawn, in whatever order, no demand is left;
/// and the demand of a reader that has not withdrawn still stands.
pub proof fn law_withdrawals_end_demand(
    registry: AdaptiveRegistryView,
    slots: Seq<int>,
    other: int,
)
    requires
        registry.valid(),
        forall|i: int| 0 <= i < slots.len() ==> 0 <= #[trigger] slots[i] < MAX_READERS,
    ensures
        withdrawn(registry, slots).valid(),
        withdrawn(registry, slots).floors == registry.floors,
        forall|k: int|
            0 <= k < MAX_READERS ==> (#[trigger] withdrawn(registry, slots).demand[k]
                <==> registry.demand[k] && !slots.contains(k)),
        (forall|k: int|
            0 <= k < MAX_READERS && #[trigger] registry.demand[k] ==> slots.contains(k))
            ==> !withdrawn(registry, slots).demanded(),
        0 <= other < MAX_READERS && registry.demand[other] && !slots.contains(other)
            ==> withdrawn(registry, slots).demanded(),
    decreases slots.len(),
{
    if slots.len() > 0 {
        let prefix = slots.drop_last();
        assert(forall|i: int| 0 <= i < prefix.len() ==> prefix[i] == slots[i]);
        assert(0 <= slots[slots.len() - 1] < MAX_READERS);
        law_withdrawals_end_demand(registry, prefix, other);
        law_demand_flags_are_separate(
            withdrawn(registry, prefix),
            slots.last(),
            false,
            registry.floors,
        );
    }
    let after = withdrawn(registry, slots);
    assert forall|k: int| 0 <= k < MAX_READERS implies (#[trigger] after.demand[k]
        <==> registry.demand[k] && !slots.contains(k)) by {
        if slots.len() > 0 {
            let before = withdrawn(registry, slots.drop_last());
            assert(before.demand[k] <==> registry.demand[k] && !slots.drop_last().contains(k));
            if slots.contains(k) && k != slots.last() {
                let i = choose|i: int| 0 <= i < slots.len() && slots[i] == k;
                assert(slots.drop_last()[i] == k);
            }
            if slots.drop_last().contains(k) {
                let i = choose|i: int|
                    0 <= i < slots.drop_last().len() && slots.drop_last()[i] == k;
                assert(slots[i] == k);
            }
            if k == slots.last() {
                assert(slots[slots.len() - 1] == k);
            }
        }
    }
    if after.demanded() {
        let k = choose|k: int| 0 <= k < after.demand.len() && after.demand[k] == true;
        assert(after.demand[k] && registry.demand[k]);
    }
    if 0 <= other < MAX_READERS && registry.demand[other] && !slots.contains(other) {
        assert(after.demand[other]);
        law_any_demand_makes_the_next_write_hot(
            AdaptiveView::<()>::empty(),
            after,
            (),
            0,
        );
    }
}

/// Giving a slot up withdraws its demand and lifts its floor, and touches no other slot.
pub proof fn law_leaving_withdraws_and_unpins(registry: AdaptiveRegistryView, slot: int)
    requires
        registry.valid(),
        registry.floors.owns(slot),
    ensures
        ({
            let after = registry.demanding(slot, false).with_floors(
                registry.floors.holding(slot, crate::registry::HoldView::empty()),
            );
            &&& !after.demand[slot]
            &&& after.floors.floors[slot] == crate::registry::IDLE
            &&& after.floors.acquired == registry.floors.acquired
            &&& forall|k: int|
                0 <= k < MAX_READERS && k != slot ==> after.demand[k]
                    == #[trigger] registry.demand[k]
            &&& forall|k: int|
                0 <= k < MAX_READERS && k != slot ==> after.floors.floors[k]
                    == #[trigger] registry.floors.floors[k]
        }),
{
    crate::registry::lemma_empty_floor();
}

/// What a write does to the blocks, whatever the mode. A hot write publishes a block of
/// its value, a cold one publishes none; in either mode every block at or above the floor
/// stays, and no block appears but the one published.
pub proof fn law_write_changes_the_blocks_by_one<T>(
    cell: AdaptiveView<T>,
    value: T,
    demand: bool,
    floor: u64,
    epoch: u64,
    seen: T,
)
    requires
        !crate::bridge::blockless::<T>(),
        cell.valid(),
        cell.epoch + 1 < crate::seqlock::EPOCH_LIMIT,
    ensures
        ({
            let after = cell.wrote(value, demand, floor);
            let published = (cell.blocks.epoch + 1) as u64;
            &&& after.hot ==> after.blocks.epoch == published
            &&& after.hot ==> after.blocks.has_block(published, value)
            &&& cell.blocks.has_block(epoch, seen) && epoch >= floor ==> after.blocks.has_block(
                epoch,
                seen,
            )
            &&& after.blocks.has_block(epoch, seen) ==> cell.blocks.has_block(epoch, seen) || (
            after.hot && epoch == published && seen == value)
        }),
{
    law_writes_keep_validity(cell, value, demand, floor);
    crate::bridge::law_write_publishes_the_value(cell.blocks, value, epoch, seen);
    crate::bridge::law_write_publishes_the_value(
        cell.blocks,
        value,
        (cell.blocks.epoch + 1) as u64,
        value,
    );
    crate::bridge::law_steps_keep_validity(
        cell.blocks,
        crate::bridge::BridgeStep::Write(value),
    );
    let blocks = if cell.goes_hot(demand) {
        cell.blocks.wrote(value)
    } else {
        cell.blocks
    };
    crate::bridge::law_sweep_keeps_the_head(blocks, floor);
    crate::bridge::law_sweep_honours_the_floor(blocks, floor, epoch, seen);
    crate::bridge::law_sweep_honours_the_floor(
        blocks,
        floor,
        (cell.blocks.epoch + 1) as u64,
        value,
    );
}

/// When a write frees blocks: a hot one once in every `SWEEP_PERIOD` hot writes, a cold one
/// only where it ends a hot period. Then nothing below the floor is left but the head; at
/// all other writes every block stays.
pub proof fn law_writes_sweep_when_due<T>(
    cell: AdaptiveView<T>,
    value: T,
    demand: bool,
    floor: u64,
    epoch: u64,
    seen: T,
)
    requires
        !crate::bridge::blockless::<T>(),
        cell.valid(),
        cell.epoch + 1 < crate::seqlock::EPOCH_LIMIT,
    ensures
        ({
            let after = cell.wrote(value, demand, floor);
            let due = if after.hot {
                (cell.hot_writes + 1) % SWEEP_PERIOD as int == 0
            } else {
                cell.hot
            };
            &&& !due && cell.blocks.has_block(epoch, seen) ==> after.blocks.has_block(epoch, seen)
            &&& due && after.blocks.has_block(epoch, seen) ==> epoch >= floor || epoch
                == after.blocks.epoch
            &&& !cell.hot && !after.hot ==> after.blocks == cell.blocks
        }),
{
    law_write_changes_the_blocks_by_one(cell, value, demand, floor, epoch, seen);
    crate::bridge::law_write_publishes_the_value(cell.blocks, value, epoch, seen);
    crate::bridge::law_steps_keep_validity(
        cell.blocks,
        crate::bridge::BridgeStep::Write(value),
    );
    let blocks = if cell.goes_hot(demand) {
        cell.blocks.wrote(value)
    } else {
        cell.blocks
    };
    crate::bridge::law_sweep_keeps_the_head(blocks, floor);
    crate::bridge::law_sweep_honours_the_floor(blocks, floor, epoch, seen);
}

/// A sweep by hand changes nothing that a read of any kind returns: the value, the epoch,
/// the mode and the counters stay, and every block at or above the floor.
pub proof fn law_reclaim_changes_no_reading<T>(
    cell: AdaptiveView<T>,
    floor: u64,
    epoch: u64,
    seen: T,
)
    requires
        cell.valid(),
    ensures
        ({
            let after = cell.swept(floor);
            &&& after.value == cell.value
            &&& after.epoch == cell.epoch
            &&& after.hot == cell.hot
            &&& after.cool_streak == cell.cool_streak
            &&& after.hot_writes == cell.hot_writes
            &&& after.blocks.head == cell.blocks.head
            &&& after.blocks.epoch == cell.blocks.epoch
            &&& after.blocks.has_block(epoch, seen) <==> cell.blocks.has_block(epoch, seen) && (
            epoch >= floor || epoch == cell.blocks.epoch)
        }),
{
    crate::bridge::law_sweep_keeps_the_head(cell.blocks, floor);
    crate::bridge::law_sweep_honours_the_floor(cell.blocks, floor, epoch, seen);
    if cell.blocks.has_block(epoch, seen) {
        crate::bridge::law_blocks_are_the_head_and_the_retired(cell.blocks, epoch, seen);
    }
}

/// What a pinned view shows does not depend on later writes, nor on sweeps. A copy shows
/// the value copied whatever becomes of the cell; so does a view that carries its value. A
/// view that pins a block shows the same after every run of writes whose floors lie at or
/// below its epoch.
pub proof fn law_pinned_view_does_not_move<T>(
    view: Pinned<T>,
    cell: AdaptiveView<T>,
    other: AdaptiveView<T>,
    run: Seq<AdaptiveWrite<T>>,
    floor: u64,
    value: T,
)
    requires
        cell.valid(),
        cell.epoch + run.len() < crate::seqlock::EPOCH_LIMIT,
        view.shows(cell, value),
    ensures
        view.kind matches PinnedKind::Ref(r) ==> r.shows(cell.blocks, value),
        view.kind matches PinnedKind::Copied(copy) ==> value == *copy && view.shows(other, value)
            && view.shows(cell.after(run), value),
        view.kind matches PinnedKind::Ref(r) ==> {
            &&& !r.pins() ==> view.shows(other, value) && view.shows(cell.after(run), value)
            &&& (forall|i: int|
                0 <= i < run.len() ==> (#[trigger] run[i]).floor <= r.pinned_epoch())
                ==> view.shows(cell.after(run), value)
            &&& floor <= r.pinned_epoch() ==> view.shows(cell.swept(floor), value)
        },
{
    if let PinnedKind::Ref(r) = view.kind {
        if r.pins() {
            if forall|i: int|
                0 <= i < run.len() ==> (#[trigger] run[i]).floor <= r.pinned_epoch() {
                law_pinned_view_survives(cell, run, r.pinned_epoch(), value);
            }
            if floor <= r.pinned_epoch() {
                law_reclaim_spares_pinned_views(cell, floor, r.pinned_epoch(), value);
            }
        }
    }
}

/// The window, the sweep period and the other limits are the documented ones.
pub proof fn law_limits()
    ensures
        COOL_DOWN == 64,
        SWEEP_PERIOD == 8192,
        MAX_READERS == 64,
        crate::registry::HOLD_DEPTH == 8,
        crate::registry::IDLE == u64::MAX,
        crate::seqlock::EPOCH_LIMIT == 0x4000_0000_0000_0000,
        crate::payload::INLINE_TAG == 1,
{
}

/// What a write does to the counters and to the head of the blocks, for every type: a hot
/// one counts and puts its value there, a cold one does neither.
pub proof fn law_write_counts_hot_writes<T>(
    cell: AdaptiveView<T>,
    value: T,
    demand: bool,
    floor: u64,
)
    requires
        cell.valid(),
        cell.epoch + 1 < crate::seqlock::EPOCH_LIMIT,
    ensures
        ({
            let after = cell.wrote(value, demand, floor);
            &&& after.value == Some(value)
            &&& after.epoch == cell.epoch + 1
            &&& demand ==> after.hot
            &&& !demand && !cell.hot ==> !after.hot
            &&& after.hot ==> after.hot_writes == cell.hot_writes + 1
            &&& after.hot ==> after.blocks.epoch == cell.blocks.epoch + 1
            &&& after.hot ==> after.blocks.head == Some(value)
            &&& !after.hot ==> after.hot_writes == cell.hot_writes
            &&& !after.hot ==> after.blocks.epoch == cell.blocks.epoch
            &&& !after.hot ==> after.blocks.head == cell.blocks.head
        }),
{
    law_writes_keep_validity(cell, value, demand, floor);
}

/// A new cell is cold and holds nothing; a new registry has no reader, no demand and no
/// floor.
pub proof fn law_new_cell_is_cold<T>(slot: int)
    requires
        0 <= slot < MAX_READERS,
    ensures
        AdaptiveView::<T>::empty().valid(),
        AdaptiveView::<T>::empty().epoch == 0,
        AdaptiveView::<T>::empty().value is None,
        !AdaptiveView::<T>::empty().hot,
        AdaptiveView::<T>::empty().hot_writes == 0,
        AdaptiveView::<T>::empty().cool_streak == 0,
        AdaptiveView::<T>::empty().blocks.retired.len() == 0,
        AdaptiveView::<T>::empty().blocks.head is None,
        AdaptiveRegistryView::empty().valid(),
        AdaptiveRegistryView::empty().floors.acquired == 0,
        !AdaptiveRegistryView::empty().demand[slot],
        !AdaptiveRegistryView::empty().demanded(),
        AdaptiveRegistryView::empty().floors.floor_min() == crate::registry::IDLE,
{
    crate::registry::law_new_registry_is_idle(slot);
}

/// A run of writes is made one by one, each on what the one before left behind.
pub proof fn law_run_is_its_writes<T>(
    cell: AdaptiveView<T>,
    run: Seq<AdaptiveWrite<T>>,
    write: AdaptiveWrite<T>,
)
    ensures
        cell.after(Seq::empty()) == cell,
        cell.after(run.push(write)) == cell.after(run).wrote(
            write.value,
            write.demand,
            write.floor,
        ),
        cell.after(seq![write]) == cell.wrote(write.value, write.demand, write.floor),
{
    assert(run.push(write).drop_last() =~= run);
    assert(seq![write].drop_last() =~= Seq::empty());
    assert(cell.after(Seq::empty()) == cell);
}

} // verus!
