//! `BridgedCell`: readers hold zero-copy views across writes, and superseded
//! blocks are freed as soon as no reader can look at them.
//!
//! A write publishes a fresh block and retires the one it supersedes. A reader
//! that takes a view pins the block's epoch in its registry slot; a sweep frees
//! the retired blocks below the lowest floor. A view is therefore a receipt: it
//! names a block by epoch, and the cell produces the block for as long as the
//! receipt is outstanding.
//!
//! Types of at most four bytes make no blocks: the value travels in the view
//! itself and pins nothing.
use crate::cell::Entry;
use crate::epoch::{missed_since, ReadResult, WriteResult};
use crate::registry::{Hold, ReaderHandle, ReaderRegistry};
use vstd::multiset::Multiset;
use vstd::prelude::*;

verus! {

/// Retired blocks at which `reclaim_if_watermark` sweeps.
pub const WATERMARK: usize = 64;

/// Whether values of the type are carried without blocks.
pub open spec fn blockless<T>() -> bool {
    vstd::layout::size_of::<T>() <= 4
}

/// The state of a `BridgedCell`.
#[verifier::ext_equal]
pub struct BridgeView<T> {
    /// Writes so far.
    pub epoch: u64,
    /// The current value.
    pub head: Option<T>,
    /// Superseded blocks not freed yet, oldest first.
    pub retired: Seq<Entry<T>>,
}

impl<T> BridgeView<T> {
    /// Nothing written, nothing retired.
    pub open spec fn empty() -> Self {
        BridgeView { epoch: 0, head: None, retired: Seq::empty() }
    }

    /// There is a value once something was written; retired blocks are older
    /// than the head, in order; types without blocks retire nothing.
    pub open spec fn valid(self) -> bool {
        &&& self.head is Some <==> self.epoch > 0
        &&& forall|i: int|
            0 <= i < self.retired.len() ==> 1 <= (#[trigger] self.retired[i]).epoch < self.epoch
        &&& forall|i: int, j: int|
            0 <= i < j < self.retired.len() ==> (#[trigger] self.retired[i]).epoch < (
            #[trigger] self.retired[j]).epoch
        &&& blockless::<T>() ==> self.retired.len() == 0
    }

    /// Whether the current value lives in a block.
    pub open spec fn head_is_block(self) -> bool {
        self.head is Some && !blockless::<T>()
    }

    /// Whether the block with this epoch is alive and holds this value.
    pub open spec fn has_block(self, epoch: u64, value: T) -> bool {
        ||| self.head_is_block() && self.epoch == epoch && self.head == Some(value)
        ||| self.retired.contains(Entry { value, epoch })
    }

    /// Blocks alive.
    pub open spec fn live_blocks(self) -> nat {
        self.retired.len() + (if self.head_is_block() {
            1nat
        } else {
            0
        })
    }

    /// The state after a write that retires the superseded block.
    pub open spec fn wrote(self, value: T) -> Self {
        BridgeView {
            epoch: (self.epoch + 1) as u64,
            head: Some(value),
            retired: if self.head_is_block() {
                self.retired.push(Entry { value: self.head->0, epoch: self.epoch })
            } else {
                self.retired
            },
        }
    }

    /// The state after a write that frees the superseded block at once.
    pub open spec fn replaced(self, value: T) -> Self {
        BridgeView {
            epoch: (self.epoch + 1) as u64,
            head: Some(value),
            retired: self.retired,
        }
    }

    /// The state after a write that frees the superseded block if no reader can
    /// look at it: none ever registered, or all floors lie above its epoch.
    pub open spec fn wrote_lazily(self, value: T, any_reader: bool, floor: u64) -> Self {
        if !any_reader || floor > self.epoch {
            self.replaced(value)
        } else {
            self.wrote(value)
        }
    }

    /// The state of the registry after the reader of `slot` has taken a view. A type
    /// without blocks leaves it alone.
    pub open spec fn viewed(
        self,
        registry: crate::registry::RegistryView,
        slot: int,
    ) -> crate::registry::RegistryView {
        if blockless::<T>() {
            registry
        } else if self.epoch > 0 {
            registry.holding(slot, registry.holds[slot].held(self.epoch))
        } else {
            registry.holding(slot, registry.holds[slot])
        }
    }

    /// The state after a sweep: the retired blocks below `floor` are freed.
    pub open spec fn swept(self, floor: u64) -> Self {
        BridgeView {
            epoch: self.epoch,
            head: self.head,
            retired: self.retired.filter(|block: Entry<T>| block.epoch >= floor),
        }
    }
}

struct Stored<T> {
    value: T,
    epoch: u64,
}

enum Head<T> {
    Empty,
    Inline(T),
    Block(Box<Stored<T>>),
}

spec fn entry<T>(block: Box<Stored<T>>) -> Entry<T> {
    Entry { value: block.value, epoch: block.epoch }
}

/// A cell whose readers may hold on to superseded values.
pub struct BridgedCell<T> {
    epoch: u64,
    head: Head<T>,
    retired: Vec<Box<Stored<T>>>,
}

impl<T> View for BridgedCell<T> {
    type V = BridgeView<T>;

    closed spec fn view(&self) -> BridgeView<T> {
        BridgeView {
            epoch: self.epoch,
            head: match self.head {
                Head::Empty => None,
                Head::Inline(value) => Some(value),
                Head::Block(block) => Some(block.value),
            },
            retired: self.retired@.map_values(|b: Box<Stored<T>>| entry(b)),
        }
    }
}

impl<T> BridgedCell<T> {
    /// The head is stored as its type demands, under the cell's epoch.
    pub closed spec fn well_stored(self) -> bool {
        match self.head {
            Head::Empty => true,
            Head::Inline(_) => blockless::<T>(),
            Head::Block(block) => !blockless::<T>() && block.epoch == self.epoch,
        }
    }

    /// The state is valid and well stored.
    pub open spec fn wf(self) -> bool {
        self@.valid() && self.well_stored()
    }

    /// A cell that was never written.
    pub fn new() -> (cell: Self)
        ensures
            cell.wf(),
            cell@ == BridgeView::<T>::empty(),
    {
        let cell = BridgedCell { epoch: 0, head: Head::Empty, retired: Vec::new() };
        assert(cell@ =~= BridgeView::<T>::empty());
        cell
    }

    /// Put `value` in the head under the next epoch; hand back the block that
    /// was there, if there was one.
    fn publish(&mut self, value: T) -> (superseded: Option<Box<Stored<T>>>)
        requires
            old(self).wf(),
            old(self)@.epoch < u64::MAX,
        ensures
            final(self).wf(),
            final(self)@ == old(self)@.replaced(value),
            superseded is Some <==> old(self)@.head_is_block(),
            superseded matches Some(block) ==> entry(block) == (Entry {
                value: old(self)@.head->0,
                epoch: old(self)@.epoch,
            }),
    {
        let epoch = self.epoch + 1;
        let mut head = if core::mem::size_of::<T>() <= 4 {
            Head::Inline(value)
        } else {
            Head::Block(Box::new(Stored { value, epoch }))
        };
        core::mem::swap(&mut self.head, &mut head);
        self.epoch = epoch;
        assert(self@ =~= old(self)@.replaced(value));
        match head {
            Head::Block(block) => Some(block),
            _ => None,
        }
    }

    /// Publish a value and retire the block it supersedes.
    pub fn write(&mut self, value: T) -> (result: WriteResult)
        requires
            old(self).wf(),
            old(self)@.epoch < u64::MAX,
        ensures
            final(self).wf(),
            final(self)@ == old(self)@.wrote(value),
            result.epoch == final(self)@.epoch,
            final(self)@.head == Some(value),
            final(self)@.epoch == old(self)@.epoch + 1,
    {
        if let Some(block) = self.publish(value) {
            self.retired.push(block);
        }
        assert(self@ =~= old(self)@.wrote(value));
        WriteResult { epoch: self.epoch }
    }

    /// Publish a value; free the block it supersedes at once if no reader can
    /// look at it, and retire it otherwise.
    pub fn write_lazy(&mut self, value: T, registry: &ReaderRegistry) -> (result: WriteResult)
        requires
            old(self).wf(),
            old(self)@.epoch < u64::MAX,
        ensures
            final(self).wf(),
            final(self)@ == old(self)@.wrote_lazily(
                value,
                registry@.acquired > 0,
                registry@.floor_min(),
            ),
            result.epoch == final(self)@.epoch,
            final(self)@.head == Some(value),
            final(self)@.epoch == old(self)@.epoch + 1,
    {
        let epoch = self.epoch;
        if let Some(block) = self.publish(value) {
            if registry.has_any_reader() && registry.floor_min() <= epoch {
                self.retired.push(block);
            }
        }
        assert(self@ =~= old(self)@.wrote_lazily(
            value,
            registry@.acquired > 0,
            registry@.floor_min(),
        ));
        WriteResult { epoch: self.epoch }
    }

    /// Clone the current value out. Pins nothing.
    pub fn read(&self, last_epoch: u64) -> (result: ReadResult<T>) where T: Clone
        requires
            self.wf(),
            self@.epoch > 0 ==> last_epoch < u64::MAX,
        ensures
            match result {
                ReadResult::Empty => self@.epoch == 0,
                ReadResult::Value { value, epoch, missed } => {
                    &&& epoch == self@.epoch
                    &&& epoch > 0
                    &&& missed == crate::epoch::missed_between(epoch as int, last_epoch as int)
                    &&& vstd::pervasive::strictly_cloned(self@.head->0, value)
                },
            },
    {
        let value = match &self.head {
            Head::Empty => {
                return ReadResult::Empty;
            },
            Head::Inline(value) => value.clone(),
            Head::Block(block) => block.value.clone(),
        };
        let missed = missed_since(self.epoch, last_epoch);
        ReadResult::Value { value, epoch: self.epoch, missed }
    }

    /// Take a zero-copy view of the current value. The reader announces itself,
    /// looks at the head, then pins the epoch it found; a type without blocks is
    /// copied into the view and pins nothing.
    pub fn read_ref(
        &self,
        registry: &mut ReaderRegistry,
        handle: &ReaderHandle,
        last_epoch: u64,
    ) -> (view: Option<ReadRef<T>>) where T: Clone
        requires
            self.wf(),
            old(registry)@.valid(),
            old(registry)@.owns(handle.slot()),
            self@.epoch > 0 ==> last_epoch < u64::MAX,
        ensures
            final(registry)@.valid(),
            final(registry)@ == self@.viewed(old(registry)@, handle.slot()),
            view is None <==> self@.epoch == 0,
            view matches Some(r) ==> {
                &&& r.taken_from(self@, old(registry)@, handle.slot(), last_epoch)
                &&& !r.pins() ==> vstd::pervasive::strictly_cloned(self@.head->0, r.carried())
            },
    {
        let carried = match &self.head {
            Head::Inline(value) => Some(value.clone()),
            _ => None,
        };
        self.take_view(registry, handle, last_epoch, carried)
    }

    /// `read_ref` for a type that is copied rather than cloned: a view that pins
    /// nothing carries the value itself.
    pub(crate) fn read_ref_copied(
        &self,
        registry: &mut ReaderRegistry,
        handle: &ReaderHandle,
        last_epoch: u64,
    ) -> (view: Option<ReadRef<T>>) where T: Copy
        requires
            self.wf(),
            old(registry)@.valid(),
            old(registry)@.owns(handle.slot()),
            self@.epoch > 0 ==> last_epoch < u64::MAX,
        ensures
            final(registry)@.valid(),
            final(registry)@ == self@.viewed(old(registry)@, handle.slot()),
            view is None <==> self@.epoch == 0,
            view matches Some(r) ==> {
                &&& r.taken_from(self@, old(registry)@, handle.slot(), last_epoch)
                &&& !r.pins() ==> r.carried() == self@.head->0
            },
    {
        let carried = match &self.head {
            Head::Inline(value) => Some(*value),
            _ => None,
        };
        self.take_view(registry, handle, last_epoch, carried)
    }

    /// Second step of taking a view, after the announcement: the epoch of the head
    /// block, if there is one.
    fn look(&self, registry: &ReaderRegistry, handle: &ReaderHandle) -> (found: Option<u64>)
        requires
            self.wf(),
            registry@.floors[handle.slot()] == 1,
        ensures
            found == (if self@.head_is_block() {
                Some(self@.epoch)
            } else {
                None
            }),
    {
        match &self.head {
            Head::Block(block) => Some(block.epoch),
            _ => None,
        }
    }

    /// Take a view, given what it carries if the type makes no blocks.
    fn take_view(
        &self,
        registry: &mut ReaderRegistry,
        handle: &ReaderHandle,
        last_epoch: u64,
        carried: Option<T>,
    ) -> (view: Option<ReadRef<T>>)
        requires
            self.wf(),
            blockless::<T>() ==> (carried is Some <==> self@.epoch > 0),
            old(registry)@.valid(),
            old(registry)@.owns(handle.slot()),
            self@.epoch > 0 ==> last_epoch < u64::MAX,
        ensures
            final(registry)@.valid(),
            final(registry)@ == self@.viewed(old(registry)@, handle.slot()),
            view is None <==> self@.epoch == 0,
            view matches Some(r) ==> {
                &&& r.taken_from(self@, old(registry)@, handle.slot(), last_epoch)
                &&& !r.pins() ==> carried == Some(r.carried())
            },
    {
        let slot = handle.slot_index();
        let epoch = self.epoch;
        if core::mem::size_of::<T>() <= 4 {
            return match carried {
                Some(value) => {
                    let missed = missed_since(epoch, last_epoch);
                    Some(ReadRef { kind: RefKind::Inline(value), slot, epoch, missed })
                },
                None => None,
            };
        }
        registry.announce(handle);
        match self.look(registry, handle) {
            Some(found) => {
                let missed = missed_since(epoch, last_epoch);
                let hold = registry.hold(handle, found);
                assert(registry@ =~= self@.viewed(old(registry)@, slot as int));
                Some(ReadRef { kind: RefKind::Block(hold), slot, epoch, missed })
            },
            None => {
                registry.settle(handle);
                assert(registry@ =~= self@.viewed(old(registry)@, slot as int));
                None
            },
        }
    }

    /// The value of the block with this epoch; `None` if there is none or it has
    /// been freed.
    pub fn block(&self, epoch: u64) -> (value: Option<&T>)
        requires
            self.wf(),
        ensures
            match value {
                Some(v) => self@.has_block(epoch, *v),
                None => forall|v: T| !self@.has_block(epoch, v),
            },
    {
        if let Head::Block(block) = &self.head {
            if block.epoch == epoch {
                return Some(&block.value);
            }
        }
        let mut i: usize = 0;
        while i < self.retired.len()
            invariant
                self.wf(),
                self.head matches Head::Block(block) ==> block.epoch != epoch,
                i <= self.retired@.len(),
                forall|k: int| 0 <= k < i ==> (#[trigger] self@.retired[k]).epoch != epoch,
            decreases self.retired@.len() - i,
        {
            assert(self@.retired[i as int] == entry(self.retired@[i as int]));
            if self.retired[i].epoch == epoch {
                return Some(&self.retired[i].value);
            }
            i = i + 1;
        }
        None
    }

    /// Free the retired blocks that no reader can look at; returns how many.
    pub fn reclaim(&mut self, registry: &ReaderRegistry) -> (freed: usize)
        requires
            old(self).wf(),
        ensures
            final(self).wf(),
            final(self)@ == old(self)@.swept(registry@.floor_min()),
            freed == old(self)@.retired.len() - final(self)@.retired.len(),
    {
        let floor = registry.floor_min();
        let mut freed: usize = 0;
        while freed < self.retired.len() && self.retired[freed].epoch < floor
            invariant
                *self == *old(self),
                self.wf(),
                freed <= self.retired@.len(),
                forall|i: int| 0 <= i < freed ==> (#[trigger] self@.retired[i]).epoch < floor,
            decreases self.retired@.len() - freed,
        {
            assert(self@.retired[freed as int] == entry(self.retired@[freed as int]));
            freed = freed + 1;
        }
        proof {
            let before = self@.retired;
            assert forall|i: int| freed <= i < before.len() implies (#[trigger] before[i]).epoch
                >= floor by {
                assert(before[freed as int] == entry(self.retired@[freed as int]));
                if i > freed {
                    assert(before[freed as int].epoch < before[i].epoch);
                }
            }
            lemma_filter_is_suffix(before, floor, freed as int);
        }
        let kept = self.retired.split_off(freed);
        self.retired = kept;
        assert(self@.retired =~= old(self)@.retired.skip(freed as int));
        assert(self@ =~= old(self)@.swept(floor));
        freed
    }

    /// Sweep only once enough blocks are retired to make it worthwhile.
    pub fn reclaim_if_watermark(&mut self, registry: &ReaderRegistry) -> (freed: usize)
        requires
            old(self).wf(),
        ensures
            final(self).wf(),
            final(self)@ == (if old(self)@.retired.len() >= WATERMARK {
                old(self)@.swept(registry@.floor_min())
            } else {
                old(self)@
            }),
            freed == old(self)@.retired.len() - final(self)@.retired.len(),
    {
        if self.retired.len() >= WATERMARK {
            self.reclaim(registry)
        } else {
            0
        }
    }

    /// Blocks retired and not freed yet.
    pub fn retired_len(&self) -> (n: usize)
        ensures
            n == self@.retired.len(),
    {
        self.retired.len()
    }

    /// Writes so far.
    pub fn epoch(&self) -> (epoch: u64)
        ensures
            epoch == self@.epoch,
    {
        self.epoch
    }
}

enum RefKind<T> {
    Inline(T),
    Block(Hold),
}

/// A view of a `BridgedCell`'s value as it was when the view was taken. It pins until
/// it is released; going out of scope does not release it.
pub struct ReadRef<T> {
    kind: RefKind<T>,
    slot: usize,
    epoch: u64,
    missed: u64,
}

impl<T> ReadRef<T> {
    /// The slot of the reader that took the view.
    pub closed spec fn reader(self) -> int {
        self.slot as int
    }

    /// Epoch of the value viewed.
    pub closed spec fn viewed_epoch(self) -> u64 {
        self.epoch
    }

    /// Writes missed before the view was taken.
    pub closed spec fn missed_writes(self) -> u64 {
        self.missed
    }

    /// Whether the view pins a block.
    pub closed spec fn pins(self) -> bool {
        self.kind is Block
    }

    /// The epoch pinned.
    pub closed spec fn pinned_epoch(self) -> u64 {
        self.kind->Block_0.at()
    }

    /// Whether the reader's hold stack was full when the view was taken.
    pub closed spec fn is_spilled(self) -> bool {
        self.kind->Block_0.is_spilled()
    }

    /// The value of a view that pins nothing.
    pub closed spec fn carried(self) -> T {
        self.kind->Inline_0
    }

    /// Whether this is a view that the reader of `slot` took of `cell`, given the
    /// registry before. What a view without a pin carries is not covered.
    pub open spec fn taken_from(
        self,
        cell: BridgeView<T>,
        registry: crate::registry::RegistryView,
        slot: int,
        last_epoch: u64,
    ) -> bool {
        &&& cell.epoch > 0
        &&& self.viewed_epoch() == cell.epoch
        &&& self.missed_writes() == crate::epoch::missed_between(
            cell.epoch as int,
            last_epoch as int,
        )
        &&& self.reader() == slot
        &&& self.pins() == !blockless::<T>()
        &&& self.pins() ==> {
            &&& self.pinned_epoch() == cell.epoch
            &&& self.is_spilled() == registry.holds[slot].full()
        }
    }

    /// Whether the view shows this value, given the state of its cell: the pinned
    /// block is alive and holds it, or the view carries it.
    pub open spec fn shows(self, cell: BridgeView<T>, value: T) -> bool {
        if self.pins() {
            cell.has_block(self.pinned_epoch(), value)
        } else {
            value == self.carried()
        }
    }

    /// Epoch of the value viewed.
    pub fn epoch(&self) -> (epoch: u64)
        ensures
            epoch == self.viewed_epoch(),
    {
        self.epoch
    }

    /// Writes missed before the view was taken.
    pub fn missed(&self) -> (missed: u64)
        ensures
            missed == self.missed_writes(),
    {
        self.missed
    }

    /// Look at the value, without copying it. `cell` is the cell the view was
    /// taken from; it has the block for as long as the view pins it.
    pub fn get<'c>(&'c self, cell: &'c BridgedCell<T>) -> (value: Option<&'c T>)
        requires
            cell.wf(),
        ensures
            match value {
                Some(v) => self.shows(cell@, *v),
                None => forall|v: T| !self.shows(cell@, v),
            },
            !self.pins() ==> value == Some(&self.carried()),
            self.pins() ==> match value {
                Some(v) => cell@.has_block(self.pinned_epoch(), *v),
                None => forall|v: T| !cell@.has_block(self.pinned_epoch(), v),
            },
    {
        match &self.kind {
            RefKind::Inline(value) => Some(value),
            RefKind::Block(hold) => cell.block(hold.epoch()),
        }
    }

    /// Give the view up, which lowers the pin it held.
    pub fn release(self, registry: &mut ReaderRegistry)
        requires
            old(registry)@.valid(),
            old(registry)@.owns(self.reader()),
        ensures
            final(registry)@.valid(),
            final(registry)@ == (if self.pins() {
                old(registry)@.holding(
                    self.reader(),
                    old(registry)@.holds[self.reader()].released(
                        self.pinned_epoch(),
                        self.is_spilled(),
                    ),
                )
            } else {
                old(registry)@
            }),
    {
        match self.kind {
            RefKind::Inline(_) => {},
            RefKind::Block(hold) => registry.release_hold(self.slot, hold),
        }
    }
}

/// In a sequence whose first `k` blocks lie below the floor and whose other
/// blocks do not, the blocks kept are the others.
proof fn lemma_filter_is_suffix<T>(blocks: Seq<Entry<T>>, floor: u64, k: int)
    requires
        0 <= k <= blocks.len(),
        forall|i: int| 0 <= i < k ==> (#[trigger] blocks[i]).epoch < floor,
        forall|i: int| k <= i < blocks.len() ==> (#[trigger] blocks[i]).epoch >= floor,
    ensures
        blocks.filter(|block: Entry<T>| block.epoch >= floor) == blocks.skip(k),
    decreases blocks.len(),
{
    reveal(Seq::filter);
    let keep = |block: Entry<T>| block.epoch >= floor;
    if blocks.len() > 0 {
        let front = blocks.drop_last();
        if k == blocks.len() {
            lemma_filter_is_suffix(front, floor, k - 1);
            assert(front.skip(k - 1) =~= Seq::empty());
            assert(blocks.skip(k) =~= Seq::empty());
        } else {
            lemma_filter_is_suffix(front, floor, k);
            assert(blocks.skip(k) =~= front.skip(k).push(blocks.last()));
        }
    } else {
        assert(blocks.skip(k) =~= Seq::empty());
        assert(blocks.filter(keep) =~= Seq::empty());
    }
}

/// One step of a cell's writer.
pub enum BridgeStep<T> {
    /// `write`.
    Write(T),
    /// `write_lazy`, with the lowest floor it found and whether any reader had
    /// ever registered.
    WriteLazy(T, bool, u64),
    /// `reclaim`, with the lowest floor it found.
    Sweep(u64),
}

impl<T> BridgeView<T> {
    /// The state after one step.
    pub open spec fn stepped(self, step: BridgeStep<T>) -> Self {
        match step {
            BridgeStep::Write(value) => self.wrote(value),
            BridgeStep::WriteLazy(value, any_reader, floor) => self.wrote_lazily(
                value,
                any_reader,
                floor,
            ),
            BridgeStep::Sweep(floor) => self.swept(floor),
        }
    }

    /// The state after a run of steps.
    pub open spec fn after(self, run: Seq<BridgeStep<T>>) -> Self
        decreases run.len(),
    {
        if run.len() == 0 {
            self
        } else {
            self.after(run.drop_last()).stepped(run.last())
        }
    }
}

impl<T> BridgeStep<T> {
    /// Whether the step respects a pin at `epoch`: a reader that holds it has
    /// registered, and its floor keeps the lowest floor at or below the epoch.
    pub open spec fn respects(self, epoch: u64) -> bool {
        match self {
            BridgeStep::Write(_) => true,
            BridgeStep::WriteLazy(_, any_reader, floor) => any_reader && floor <= epoch,
            BridgeStep::Sweep(floor) => floor <= epoch,
        }
    }
}

/// A block is alive under at most one value per epoch.
pub proof fn law_block_is_unique<T>(cell: BridgeView<T>, epoch: u64, a: T, b: T)
    requires
        cell.valid(),
        cell.has_block(epoch, a),
        cell.has_block(epoch, b),
    ensures
        a == b,
{
}

/// A sweep keeps exactly the blocks at or above the floor.
pub proof fn law_sweep_honours_the_floor<T>(
    cell: BridgeView<T>,
    floor: u64,
    epoch: u64,
    value: T,
)
    requires
        cell.valid(),
    ensures
        cell.swept(floor).valid(),
        cell.swept(floor).has_block(epoch, value) <==> cell.has_block(epoch, value) && (epoch
            >= floor || (cell.head_is_block() && epoch == cell.epoch)),
{
    let keep = |block: Entry<T>| block.epoch >= floor;
    let kept = lemma_sweep_is_suffix(cell, floor);
    assert(cell.swept(floor).retired == cell.retired.skip(kept));
    let before = cell.retired;
    let after = cell.swept(floor).retired;
    if before.contains(Entry { value, epoch }) && epoch >= floor {
        let i = choose|i: int| 0 <= i < before.len() && before[i] == (Entry { value, epoch });
        assert(after[i - kept] == before[i]);
    }
    if after.contains(Entry { value, epoch }) {
        let i = choose|i: int| 0 <= i < after.len() && after[i] == (Entry { value, epoch });
        assert(before[i + kept] == after[i]);
    }
}

/// The number of blocks a sweep frees: they come first among the retired.
pub proof fn lemma_sweep_is_suffix<T>(cell: BridgeView<T>, floor: u64) -> (k: int)
    requires
        cell.valid(),
    ensures
        0 <= k <= cell.retired.len(),
        cell.swept(floor).retired == cell.retired.skip(k),
        forall|i: int| 0 <= i < k ==> (#[trigger] cell.retired[i]).epoch < floor,
        forall|i: int| k <= i < cell.retired.len() ==> (#[trigger] cell.retired[i]).epoch >= floor,
{
    let k = lemma_split_point(cell, floor, cell.retired.len() as int);
    lemma_filter_is_suffix(cell.retired, floor, k);
    k
}

proof fn lemma_split_point<T>(cell: BridgeView<T>, floor: u64, n: int) -> (k: int)
    requires
        cell.valid(),
        0 <= n <= cell.retired.len(),
    ensures
        0 <= k <= n,
        forall|i: int| 0 <= i < k ==> (#[trigger] cell.retired[i]).epoch < floor,
        forall|i: int| k <= i < n ==> (#[trigger] cell.retired[i]).epoch >= floor,
    decreases n,
{
    if n == 0 {
        0
    } else if cell.retired[n - 1].epoch < floor {
        assert forall|i: int| 0 <= i < n implies (#[trigger] cell.retired[i]).epoch < floor by {
            if i < n - 1 {
                assert(cell.retired[i].epoch < cell.retired[n - 1].epoch);
            }
        }
        n
    } else {
        lemma_split_point(cell, floor, n - 1)
    }
}

/// Validity survives every step.
pub proof fn law_steps_keep_validity<T>(cell: BridgeView<T>, step: BridgeStep<T>)
    requires
        cell.valid(),
        cell.epoch < u64::MAX,
    ensures
        cell.stepped(step).valid(),
{
    if let BridgeStep::Sweep(floor) = step {
        if let Some(value) = cell.head {
            law_sweep_honours_the_floor(cell, floor, cell.epoch, value);
        } else {
            let k = lemma_sweep_is_suffix(cell, floor);
        }
    }
}

/// A step that respects a pin keeps the pinned block.
pub proof fn lemma_step_keeps_block<T>(
    before: BridgeView<T>,
    step: BridgeStep<T>,
    epoch: u64,
    value: T,
)
    requires
        before.valid(),
        before.epoch < u64::MAX,
        before.has_block(epoch, value),
        step.respects(epoch),
    ensures
        before.stepped(step).valid(),
        before.stepped(step).has_block(epoch, value),
{
    law_steps_keep_validity(before, step);
    let after = before.stepped(step);
    match step {
        BridgeStep::Sweep(floor) => {
            law_sweep_honours_the_floor(before, floor, epoch, value);
        },
        _ => {
            let block = Entry { value, epoch };
            if before.retired.contains(block) {
                let i = choose|i: int| 0 <= i < before.retired.len() && before.retired[i] == block;
                assert(after.retired[i] == block);
            } else {
                assert(before.epoch == epoch);
                if after.retired.len() > before.retired.len() {
                    assert(after.retired[before.retired.len() as int] == block);
                }
            }
        },
    }
}

/// A pinned view does not move: whatever the writer does while the pin is held,
/// writes and sweeps of any kind and number, the block stays and keeps its value.
pub proof fn law_pinned_block_survives<T>(
    cell: BridgeView<T>,
    run: Seq<BridgeStep<T>>,
    epoch: u64,
    value: T,
)
    requires
        cell.valid(),
        cell.epoch + run.len() < u64::MAX,
        cell.has_block(epoch, value),
        forall|i: int| 0 <= i < run.len() ==> (#[trigger] run[i]).respects(epoch),
    ensures
        cell.after(run).valid(),
        cell.after(run).epoch <= cell.epoch + run.len(),
        cell.after(run).has_block(epoch, value),
    decreases run.len(),
{
    if run.len() > 0 {
        let prefix = run.drop_last();
        assert(forall|i: int| 0 <= i < prefix.len() ==> prefix[i] == run[i]);
        law_pinned_block_survives(cell, prefix, epoch, value);
        assert(run.last().respects(epoch));
        lemma_step_keeps_block(cell.after(prefix), run.last(), epoch, value);
    }
}

/// A live view makes every step respect its pin: the lowest floor cannot pass
/// the epoch of a view that its reader still holds.
pub proof fn law_live_view_holds_the_floor_down<T>(
    registry: crate::registry::RegistryView,
    slot: int,
    recorded: Multiset<u64>,
    spilled: Multiset<u64>,
    epoch: u64,
    value: T,
)
    requires
        registry.valid(),
        0 <= slot < crate::registry::MAX_READERS,
        registry.holds[slot].accounts_for(recorded, spilled),
        recorded.contains(epoch) || spilled.contains(epoch),
    ensures
        BridgeStep::<T>::Sweep(registry.floor_min()).respects(epoch),
        BridgeStep::WriteLazy(value, registry.acquired > 0, registry.floor_min()).respects(epoch),
{
    broadcast use vstd::seq_lib::group_to_multiset_ensures;

    crate::registry::law_floor_min_covers_every_reader(registry, slot, recorded, spilled, epoch);
    if registry.acquired == 0 {
        assert(registry.holds[slot] == crate::registry::HoldView::empty());
        assert(!registry.holds[slot].stack.contains(epoch));
    }
}

/// With every reader idle a sweep drains the retired list.
pub proof fn law_idle_sweep_drains<T>(cell: BridgeView<T>)
    requires
        cell.valid(),
    ensures
        cell.swept(crate::registry::IDLE).retired.len() == 0,
{
    let k = lemma_sweep_is_suffix(cell, crate::registry::IDLE);
    if k < cell.retired.len() {
        assert(cell.retired[k].epoch < cell.epoch);
    }
}

/// While a floor of 1 is published, a sweep frees nothing.
pub proof fn law_announced_sweep_frees_nothing<T>(cell: BridgeView<T>)
    requires
        cell.valid(),
    ensures
        cell.swept(1) == cell,
{
    let k = lemma_sweep_is_suffix(cell, 1);
    if k > 0 {
        assert(cell.retired[0].epoch >= 1);
    }
    assert(cell.retired.skip(0) =~= cell.retired);
}

/// No block leaks and none is freed twice: a write adds one live block, a sweep
/// takes away exactly those it frees, and a lazy write either adds one or swaps
/// one for another.
pub proof fn law_blocks_are_conserved<T>(cell: BridgeView<T>, step: BridgeStep<T>)
    requires
        cell.valid(),
        cell.epoch < u64::MAX,
        !blockless::<T>(),
    ensures
        match step {
            BridgeStep::Write(_) => cell.stepped(step).live_blocks() == cell.live_blocks() + 1,
            BridgeStep::WriteLazy(_, any_reader, floor) => cell.stepped(step).live_blocks()
                == cell.live_blocks() + (if cell.epoch > 0 && (!any_reader || floor
                > cell.epoch) {
                0int
            } else {
                1
            }),
            BridgeStep::Sweep(floor) => cell.stepped(step).live_blocks() == cell.live_blocks()
                - cell.retired.filter(|block: Entry<T>| block.epoch < floor).len(),
        },
{
    if let BridgeStep::Sweep(floor) = step {
        lemma_filters_partition(cell.retired, floor);
    }
}

proof fn lemma_filters_partition<T>(blocks: Seq<Entry<T>>, floor: u64)
    ensures
        blocks.filter(|block: Entry<T>| block.epoch < floor).len() + blocks.filter(
            |block: Entry<T>| block.epoch >= floor,
        ).len() == blocks.len(),
    decreases blocks.len(),
{
    reveal(Seq::filter);
    if blocks.len() > 0 {
        lemma_filters_partition(blocks.drop_last(), floor);
    }
}

/// While no reader has ever registered, lazy writes retire nothing.
pub proof fn law_unshared_lazy_writes_retire_nothing<T>(cell: BridgeView<T>, value: T, floor: u64)
    ensures
        cell.wrote_lazily(value, false, floor).retired == cell.retired,
{
}

/// A sweep leaves the value, its epoch and the head block alone, and frees from the
/// retired blocks only.
pub proof fn law_sweep_keeps_the_head<T>(cell: BridgeView<T>, floor: u64)
    requires
        cell.valid(),
    ensures
        cell.swept(floor).valid(),
        cell.swept(floor).epoch == cell.epoch,
        cell.swept(floor).head == cell.head,
        cell.swept(floor).head_is_block() == cell.head_is_block(),
        cell.swept(floor).retired.len() <= cell.retired.len(),
        forall|i: int|
            0 <= i < cell.swept(floor).retired.len() ==> cell.retired.contains(
                #[trigger] cell.swept(floor).retired[i],
            ),
{
    let k = lemma_sweep_is_suffix(cell, floor);
    let after = cell.swept(floor).retired;
    assert forall|i: int| 0 <= i < after.len() implies cell.retired.contains(
        #[trigger] after[i],
    ) by {
        assert(cell.retired[i + k] == after[i]);
    }
}

/// After a write the cell holds the value written, under the next epoch, for every type.
/// For a type with blocks the new value has a block of its own, and every block that was
/// there stays; a type without blocks has none.
pub proof fn law_write_publishes_the_value<T>(cell: BridgeView<T>, value: T, epoch: u64, seen: T)
    requires
        cell.valid(),
        cell.epoch < u64::MAX,
    ensures
        cell.wrote(value).head == Some(value),
        cell.wrote(value).epoch == cell.epoch + 1,
        !blockless::<T>() ==> (cell.wrote(value).has_block(epoch, seen) <==> cell.has_block(
            epoch,
            seen,
        ) || (epoch == cell.epoch + 1 && seen == value)),
        blockless::<T>() ==> !cell.wrote(value).has_block(epoch, seen),
        blockless::<T>() ==> cell.wrote(value).retired.len() == 0,
{
    let after = cell.wrote(value);
    let block = Entry { value: seen, epoch };
    if after.retired.contains(block) {
        let i = choose|i: int| 0 <= i < after.retired.len() && after.retired[i] == block;
        if i < cell.retired.len() {
            assert(cell.retired[i] == block);
        }
    }
    if cell.retired.contains(block) {
        let i = choose|i: int| 0 <= i < cell.retired.len() && cell.retired[i] == block;
        assert(after.retired[i] == block);
    }
    if cell.head_is_block() {
        assert(after.retired[cell.retired.len() as int] == (Entry {
            value: cell.head->0,
            epoch: cell.epoch,
        }));
    }
}

/// After a lazy write the cell holds the value written, under the next epoch, for every
/// type and whatever the readers do. All blocks stay but the superseded one, which stays
/// exactly if some reader has registered and the lowest floor does not lie above it. A
/// lazy write never keeps less than that, nor more than a plain write.
pub proof fn law_lazy_write_publishes_the_value<T>(
    cell: BridgeView<T>,
    value: T,
    any_reader: bool,
    floor: u64,
    epoch: u64,
    seen: T,
)
    requires
        cell.epoch < u64::MAX,
    ensures
        ({
            let after = cell.wrote_lazily(value, any_reader, floor);
            &&& after.head == Some(value)
            &&& after.epoch == cell.epoch + 1
            &&& cell.valid() && !blockless::<T>() ==> (after.has_block(epoch, seen) <==> (epoch
                == cell.epoch + 1 && seen == value) || (cell.has_block(epoch, seen) && (epoch
                < cell.epoch || (any_reader && floor <= cell.epoch))))
            &&& cell.valid() && blockless::<T>() ==> !after.has_block(epoch, seen)
            &&& any_reader && floor <= cell.epoch ==> after == cell.wrote(value)
        }),
{
    if cell.valid() {
        law_write_publishes_the_value(cell, value, epoch, seen);
        let after = cell.wrote_lazily(value, any_reader, floor);
        let block = Entry { value: seen, epoch };
        if cell.retired.contains(block) {
            let i = choose|i: int| 0 <= i < cell.retired.len() && cell.retired[i] == block;
            assert(cell.retired[i].epoch < cell.epoch);
        }
    }
}

/// The blocks alive are the head block and the retired ones, each under the epoch it was
/// written at, and no other.
pub proof fn law_blocks_are_the_head_and_the_retired<T>(
    cell: BridgeView<T>,
    epoch: u64,
    value: T,
)
    requires
        cell.valid(),
    ensures
        cell.has_block(epoch, value) ==> 1 <= epoch <= cell.epoch,
        cell.epoch > 0 && !blockless::<T>() ==> (cell.has_block(cell.epoch, value) <==> cell.head
            == Some(value)),
        epoch != cell.epoch ==> (cell.has_block(epoch, value) <==> exists|i: int|
            0 <= i < cell.retired.len() && (#[trigger] cell.retired[i]).epoch == epoch
                && cell.retired[i].value == value),
        blockless::<T>() ==> !cell.has_block(epoch, value),
        cell.epoch == 0 ==> !cell.has_block(epoch, value),
        cell.head_is_block() <==> cell.epoch > 0 && !blockless::<T>(),
{
    let block = Entry { value, epoch };
    if cell.retired.contains(block) {
        let i = choose|i: int| 0 <= i < cell.retired.len() && cell.retired[i] == block;
        assert(cell.retired[i].epoch == epoch);
    }
    if exists|i: int|
        0 <= i < cell.retired.len() && (#[trigger] cell.retired[i]).epoch == epoch
            && cell.retired[i].value == value {
        let i = choose|i: int|
            0 <= i < cell.retired.len() && (#[trigger] cell.retired[i]).epoch == epoch
                && cell.retired[i].value == value;
        assert(cell.retired[i] == block);
    }
}

/// The types without blocks are those of at most four bytes: the ones that an inline cell
/// keeps in its head.
pub proof fn law_blockless_types_are_the_inline_ones<T>()
    ensures
        blockless::<bool>() == <bool as crate::payload::Payload>::inline(),
        blockless::<char>() == <char as crate::payload::Payload>::inline(),
        blockless::<u8>() == <u8 as crate::payload::Payload>::inline(),
        blockless::<u16>() == <u16 as crate::payload::Payload>::inline(),
        blockless::<u32>() == <u32 as crate::payload::Payload>::inline(),
        blockless::<u64>() == <u64 as crate::payload::Payload>::inline(),
        blockless::<u128>() == <u128 as crate::payload::Payload>::inline(),
        blockless::<i32>() == <i32 as crate::payload::Payload>::inline(),
        blockless::<i64>() == <i64 as crate::payload::Payload>::inline(),
        !blockless::<u64>(),
        blockless::<u32>(),
        blockless::<T>() <==> vstd::layout::size_of::<T>() <= 4,
{
    broadcast use vstd::layout::layout_of_primitives;

}

/// Taking a view of a written cell adds that view to the reader's account, whatever the
/// registry was before, and changes no other reader's: the account grows by the cell's
/// epoch, and the floor is that of the account. A cell that was never written adds
/// nothing, and a type without blocks leaves the registry alone.
pub proof fn law_taking_a_view_adds_it<T>(
    cell: BridgeView<T>,
    registry: crate::registry::RegistryView,
    slot: int,
    recorded: Multiset<u64>,
    spilled: Multiset<u64>,
)
    requires
        cell.valid(),
        registry.valid(),
        registry.owns(slot),
        registry.holds[slot].accounts_for(recorded, spilled),
    ensures
        ({
            let after = cell.viewed(registry, slot);
            let holds = registry.holds[slot];
            &&& after.valid()
            &&& after.acquired == registry.acquired
            &&& forall|i: int|
                0 <= i < crate::registry::MAX_READERS && i != slot ==> after.floors[i]
                    == #[trigger] registry.floors[i]
            &&& forall|i: int|
                0 <= i < crate::registry::MAX_READERS && i != slot ==> after.holds[i]
                    == #[trigger] registry.holds[i]
            &&& blockless::<T>() ==> after == registry
            &&& !blockless::<T>() ==> after.settled(slot)
            &&& !blockless::<T>() && cell.epoch == 0 ==> after.holds[slot].accounts_for(
                recorded,
                spilled,
            )
            &&& !blockless::<T>() && cell.epoch > 0 ==> {
                &&& after.floors[slot] <= cell.epoch
                &&& after.floor_min() <= cell.epoch
                &&& holds.stack.len() < crate::registry::HOLD_DEPTH
                    ==> after.holds[slot].accounts_for(recorded.insert(cell.epoch), spilled)
                &&& holds.stack.len() >= crate::registry::HOLD_DEPTH
                    ==> after.holds[slot].accounts_for(recorded, spilled.insert(cell.epoch))
            }
        }),
{
    if !blockless::<T>() && cell.epoch > 0 {
        crate::registry::law_hold_adds_one_view(
            registry.holds[slot],
            recorded,
            spilled,
            cell.epoch,
        );
        crate::registry::law_view_brings_the_floor_down(registry.holds[slot], cell.epoch);
        let after = cell.viewed(registry, slot);
        crate::registry::law_lowest_is_the_minimum(after.floors);
        assert(after.floors[slot] == after.holds[slot].floor());
    }
}

/// A view that has just been taken shows the current value, names the reader that took it,
/// and reports the cell's epoch and the writes skipped since the reader's last one. It pins
/// exactly if the type has blocks.
pub proof fn law_taken_view_shows_the_value<T>(
    view: ReadRef<T>,
    cell: BridgeView<T>,
    registry: crate::registry::RegistryView,
    slot: int,
    last_epoch: u64,
)
    requires
        cell.valid(),
        view.taken_from(cell, registry, slot, last_epoch),
    ensures
        cell.epoch > 0,
        view.reader() == slot,
        view.viewed_epoch() == cell.epoch,
        last_epoch == 0 || last_epoch >= cell.epoch ==> view.missed_writes() == 0,
        0 < last_epoch < cell.epoch ==> view.missed_writes() == cell.epoch - last_epoch - 1,
        view.pins() <==> !blockless::<T>(),
        view.pins() ==> view.pinned_epoch() == cell.epoch,
        view.pins() ==> view.shows(cell, cell.head->0),
        view.pins() ==> (view.is_spilled() <==> registry.holds[slot].stack.len()
            >= crate::registry::HOLD_DEPTH),
{
}

/// Releasing a view that has just been taken takes exactly it out of the account again,
/// also where another view of the same epoch is held.
pub proof fn law_release_undoes_the_view<T>(
    view: ReadRef<T>,
    cell: BridgeView<T>,
    registry: crate::registry::RegistryView,
    slot: int,
    last_epoch: u64,
    recorded: Multiset<u64>,
    spilled: Multiset<u64>,
)
    requires
        !blockless::<T>(),
        cell.valid(),
        registry.valid(),
        registry.owns(slot),
        registry.holds[slot].accounts_for(recorded, spilled),
        view.taken_from(cell, registry, slot, last_epoch),
    ensures
        cell.viewed(registry, slot).holds[slot].released(
            view.pinned_epoch(),
            view.is_spilled(),
        ).accounts_for(recorded, spilled),
{
    broadcast use vstd::multiset::group_multiset_axioms;

    let epoch = cell.epoch;
    law_taking_a_view_adds_it(cell, registry, slot, recorded, spilled);
    let after = cell.viewed(registry, slot).holds[slot];
    if registry.holds[slot].full() {
        crate::registry::law_release_removes_one_view(
            after,
            recorded,
            spilled.insert(epoch),
            epoch,
        );
        assert(spilled.insert(epoch).remove(epoch) =~= spilled);
    } else {
        crate::registry::law_release_removes_one_view(
            after,
            recorded.insert(epoch),
            spilled,
            epoch,
        );
        assert(recorded.insert(epoch).remove(epoch) =~= recorded);
    }
}

/// What a view shows does not move. A view that carries its value shows it whatever
/// becomes of the cell; one that pins a block shows the same after any run of steps that
/// respect the pin. A view shows one value at most.
pub proof fn law_view_does_not_move<T>(
    view: ReadRef<T>,
    cell: BridgeView<T>,
    other: BridgeView<T>,
    run: Seq<BridgeStep<T>>,
    value: T,
    seen: T,
)
    requires
        cell.valid(),
        cell.epoch + run.len() < u64::MAX,
        view.shows(cell, value),
    ensures
        !view.pins() ==> view.shows(other, value),
        !view.pins() ==> value == view.carried(),
        (forall|i: int|
            0 <= i < run.len() ==> (#[trigger] run[i]).respects(view.pinned_epoch()))
            ==> view.shows(cell.after(run), value),
        view.shows(cell, seen) ==> seen == value,
{
    if view.pins() && (forall|i: int|
        0 <= i < run.len() ==> (#[trigger] run[i]).respects(view.pinned_epoch())) {
        law_pinned_block_survives(cell, run, view.pinned_epoch(), value);
    }
    if view.shows(cell, seen) && view.pins() {
        law_block_is_unique(cell, view.pinned_epoch(), seen, value);
    }
}

/// A new cell holds no value, no block and nothing retired.
pub proof fn law_new_cell_is_empty<T>(epoch: u64, value: T)
    ensures
        BridgeView::<T>::empty().valid(),
        BridgeView::<T>::empty().epoch == 0,
        BridgeView::<T>::empty().head is None,
        BridgeView::<T>::empty().retired.len() == 0,
        !BridgeView::<T>::empty().has_block(epoch, value),
{
}

} // verus!
