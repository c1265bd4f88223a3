//! A bridged or an adaptive cell and all its readers together: what the contracts of
//! the single operations add up to over any run of them.
use vstd::multiset::Multiset;
use vstd::prelude::*;

verus! {

/// A cell whose values live in blocks, the registry of its readers, and what has
/// happened to them.
pub struct Shared<T> {
    pub cell: crate::bridge::BridgeView<T>,
    pub registry: crate::registry::RegistryView,
    /// The values written, the one at epoch 1 first.
    pub log: Seq<T>,
    /// The epochs of the views each slot's reader holds and has on its stack.
    pub recorded: Seq<Multiset<u64>>,
    /// The epochs of the views each slot's reader holds beyond its stack.
    pub spilled: Seq<Multiset<u64>>,
}

/// One operation of the writer or of a reader.
pub enum Op<T> {
    /// `write`.
    Write(T),
    /// `write_lazy`.
    WriteLazy(T),
    /// `reclaim`.
    Reclaim,
    /// `acquire`.
    Acquire,
    /// `announce`, by the reader of a slot.
    Announce(int),
    /// `settle`, by the reader of a slot.
    Settle(int),
    /// `read_ref` on a written cell, by the reader of a slot.
    Take(int),
    /// `release` of a view of an epoch, by the reader of a slot; the flag tells a
    /// view beyond the stack.
    GiveUp(int, u64, bool),
    /// `release` of a slot whose reader holds no view any more.
    Leave(int),
}

impl<T> Shared<T> {
    /// Nothing written, no reader.
    pub open spec fn initial() -> Self {
        Shared {
            cell: crate::bridge::BridgeView::empty(),
            registry: crate::registry::RegistryView::empty(),
            log: Seq::empty(),
            recorded: Seq::new(crate::registry::MAX_READERS as nat, |i: int| Multiset::empty()),
            spilled: Seq::new(crate::registry::MAX_READERS as nat, |i: int| Multiset::empty()),
        }
    }

    /// Whether the reader of a slot holds a view of an epoch.
    pub open spec fn holds(self, slot: int, epoch: u64) -> bool {
        0 <= slot < crate::registry::MAX_READERS && (self.recorded[slot].contains(epoch)
            || self.spilled[slot].contains(epoch))
    }

    /// Whether the reader of a slot holds no view.
    pub open spec fn holds_nothing(self, slot: int) -> bool {
        self.recorded[slot] == Multiset::<u64>::empty() && self.spilled[slot] == Multiset::<
            u64,
        >::empty()
    }

    /// Whether an operation may be made: what its contract requires, and that a
    /// view is given up by the one who holds it.
    pub open spec fn allows(self, op: Op<T>) -> bool {
        match op {
            Op::Write(_) | Op::WriteLazy(_) => self.cell.epoch < u64::MAX,
            Op::Reclaim => true,
            Op::Acquire => self.registry.acquired < crate::registry::MAX_READERS,
            Op::Announce(slot) | Op::Settle(slot) => self.registry.owns(slot),
            Op::Take(slot) => self.registry.owns(slot) && self.cell.epoch > 0,
            Op::GiveUp(slot, epoch, beyond) => self.registry.owns(slot) && if beyond {
                self.spilled[slot].contains(epoch)
            } else {
                self.recorded[slot].contains(epoch)
            },
            Op::Leave(slot) => self.registry.owns(slot) && self.holds_nothing(slot),
        }
    }

    /// The state after the reader of a slot has recorded a view of an epoch.
    pub open spec fn held_at(self, slot: int, epoch: u64) -> Self {
        let holds = self.registry.holds[slot];
        Shared {
            registry: self.registry.holding(slot, holds.held(epoch)),
            recorded: if holds.full() {
                self.recorded
            } else {
                self.recorded.update(slot, self.recorded[slot].insert(epoch))
            },
            spilled: if holds.full() {
                self.spilled.update(slot, self.spilled[slot].insert(epoch))
            } else {
                self.spilled
            },
            ..self
        }
    }

    /// The state after an operation.
    pub open spec fn stepped(self, op: Op<T>) -> Self {
        match op {
            Op::Write(value) => Shared {
                cell: self.cell.wrote(value),
                log: self.log.push(value),
                ..self
            },
            Op::WriteLazy(value) => Shared {
                cell: self.cell.wrote_lazily(
                    value,
                    self.registry.acquired > 0,
                    self.registry.floor_min(),
                ),
                log: self.log.push(value),
                ..self
            },
            Op::Reclaim => Shared { cell: self.cell.swept(self.registry.floor_min()), ..self },
            Op::Acquire => Shared {
                registry: crate::registry::RegistryView {
                    acquired: self.registry.acquired + 1,
                    ..self.registry
                },
                ..self
            },
            Op::Announce(slot) => Shared { registry: self.registry.published(slot, 1), ..self },
            Op::Settle(slot) => Shared {
                registry: self.registry.holding(slot, self.registry.holds[slot]),
                ..self
            },
            Op::Take(slot) => self.held_at(slot, self.cell.epoch),
            Op::GiveUp(slot, epoch, beyond) => Shared {
                registry: self.registry.holding(
                    slot,
                    self.registry.holds[slot].released(epoch, beyond),
                ),
                recorded: if beyond {
                    self.recorded
                } else {
                    self.recorded.update(slot, self.recorded[slot].remove(epoch))
                },
                spilled: if beyond {
                    self.spilled.update(slot, self.spilled[slot].remove(epoch))
                } else {
                    self.spilled
                },
                ..self
            },
            Op::Leave(slot) => Shared {
                registry: self.registry.holding(slot, crate::registry::HoldView::empty()),
                ..self
            },
        }
    }

    /// The state after a run of operations.
    pub open spec fn after(self, run: Seq<Op<T>>) -> Self
        decreases run.len(),
    {
        if run.len() == 0 {
            self
        } else {
            self.after(run.drop_last()).stepped(run.last())
        }
    }

    /// Whether every operation of a run may be made when its turn comes.
    pub open spec fn allows_all(self, run: Seq<Op<T>>) -> bool {
        forall|i: int|
            0 <= i < run.len() ==> self.after(run.take(i)).allows(#[trigger] run[i])
    }

    /// What every reachable state satisfies: valid parts, the registry's account
    /// of the views is right, every block holds what was written at its epoch, and
    /// the block of every view is alive.
    pub open spec fn sound(self) -> bool {
        &&& self.cell.valid()
        &&& self.registry.valid()
        &&& self.log.len() == self.cell.epoch
        &&& self.cell.epoch > 0 ==> self.cell.head == Some(self.log.last())
        &&& forall|i: int|
            0 <= i < self.cell.retired.len() ==> (#[trigger] self.cell.retired[i]).value
                == self.log[self.cell.retired[i].epoch - 1]
        &&& self.recorded.len() == crate::registry::MAX_READERS
        &&& self.spilled.len() == crate::registry::MAX_READERS
        &&& forall|slot: int|
            0 <= slot < crate::registry::MAX_READERS ==> (
            #[trigger] self.registry.holds[slot]).accounts_for(
                self.recorded[slot],
                self.spilled[slot],
            )
        &&& forall|slot: int, epoch: u64| #[trigger]
            self.holds(slot, epoch) ==> self.shows(epoch)
    }

    /// Whether the block of an epoch is alive and holds what was written then.
    pub open spec fn shows(self, epoch: u64) -> bool {
        1 <= epoch <= self.log.len() && self.cell.has_block(epoch, self.log[epoch - 1])
    }
}

proof fn lemma_publishing_is_sound<T>(s: Shared<T>, op: Op<T>)
    requires
        !crate::bridge::blockless::<T>(),
        s.sound(),
        s.allows(op),
        op is Write || op is WriteLazy,
    ensures
        s.stepped(op).sound(),
{
    let t = s.stepped(op);
    let any_reader = s.registry.acquired > 0;
    let floor = s.registry.floor_min();
    let step = match op {
        Op::Write(value) => crate::bridge::BridgeStep::Write(value),
        Op::WriteLazy(value) => crate::bridge::BridgeStep::WriteLazy(value, any_reader, floor),
        _ => arbitrary(),
    };
    assert(t.cell == s.cell.stepped(step));
    crate::bridge::law_steps_keep_validity(s.cell, step);
    assert forall|i: int| 0 <= i < t.cell.retired.len() implies (
    #[trigger] t.cell.retired[i]).value == t.log[t.cell.retired[i].epoch - 1] by {
        if i < s.cell.retired.len() {
            assert(t.cell.retired[i] == s.cell.retired[i]);
        }
    }
    assert forall|slot: int, epoch: u64| #[trigger] t.holds(slot, epoch) implies t.shows(
        epoch,
    ) by {
        assert(s.holds(slot, epoch));
        assert(s.registry.holds[slot].accounts_for(s.recorded[slot], s.spilled[slot]));
        let value = s.log[epoch - 1];
        crate::bridge::law_live_view_holds_the_floor_down(
            s.registry,
            slot,
            s.recorded[slot],
            s.spilled[slot],
            epoch,
            t.log.last(),
        );
        assert(step.respects(epoch));
        crate::bridge::lemma_step_keeps_block(s.cell, step, epoch, value);
    }
}

proof fn lemma_sweeping_is_sound<T>(s: Shared<T>)
    requires
        s.sound(),
    ensures
        s.stepped(Op::Reclaim).sound(),
{
    let t = s.stepped(Op::Reclaim);
    let floor = s.registry.floor_min();
    let k = crate::bridge::lemma_sweep_is_suffix(s.cell, floor);
    assert forall|i: int| 0 <= i < t.cell.retired.len() implies (
    #[trigger] t.cell.retired[i]).value == t.log[t.cell.retired[i].epoch - 1] by {
        assert(t.cell.retired[i] == s.cell.retired[i + k]);
    }
    assert forall|slot: int, epoch: u64| #[trigger] t.holds(slot, epoch) implies t.shows(
        epoch,
    ) by {
        assert(s.holds(slot, epoch));
        assert(s.registry.holds[slot].accounts_for(s.recorded[slot], s.spilled[slot]));
        crate::registry::law_floor_min_covers_every_reader(
            s.registry,
            slot,
            s.recorded[slot],
            s.spilled[slot],
            epoch,
        );
        crate::bridge::law_sweep_honours_the_floor(s.cell, floor, epoch, s.log[epoch - 1]);
    }
}

proof fn lemma_registering_is_sound<T>(s: Shared<T>, op: Op<T>)
    requires
        s.sound(),
        s.allows(op),
        op is Acquire || op is Announce || op is Settle || op is Leave,
    ensures
        s.stepped(op).sound(),
{
    broadcast use {
        vstd::seq_lib::group_to_multiset_ensures,
        vstd::multiset::group_multiset_axioms,
    };

    let t = s.stepped(op);
    match op {
        Op::Announce(slot) => {
            crate::registry::lemma_floor_at_least_one(s.registry.holds[slot]);
        },
        Op::Leave(slot) => {
            crate::registry::lemma_empty_floor();
            assert(t.registry.holds[slot].stack.to_multiset() =~= Multiset::empty());
        },
        _ => {},
    }
    assert forall|slot: int| 0 <= slot < crate::registry::MAX_READERS implies (
    #[trigger] t.registry.holds[slot]).accounts_for(t.recorded[slot], t.spilled[slot]) by {
        assert(s.registry.holds[slot].accounts_for(s.recorded[slot], s.spilled[slot]));
    }
    assert forall|slot: int, epoch: u64| #[trigger] t.holds(slot, epoch) implies t.shows(
        epoch,
    ) by {
        assert(s.holds(slot, epoch));
    }
}

proof fn lemma_viewing_is_sound<T>(s: Shared<T>, op: Op<T>)
    requires
        !crate::bridge::blockless::<T>(),
        s.sound(),
        s.allows(op),
        op is Take || op is GiveUp,
    ensures
        s.stepped(op).sound(),
{
    broadcast use vstd::multiset::group_multiset_axioms;

    let t = s.stepped(op);
    let at = match op {
        Op::Take(slot) => slot,
        Op::GiveUp(slot, _, _) => slot,
        _ => arbitrary(),
    };
    assert(s.registry.holds[at].accounts_for(s.recorded[at], s.spilled[at]));
    match op {
        Op::Take(_) => {
            crate::registry::law_hold_adds_one_view(
                s.registry.holds[at],
                s.recorded[at],
                s.spilled[at],
                s.cell.epoch,
            );
        },
        Op::GiveUp(_, epoch, _) => {
            crate::registry::law_release_removes_one_view(
                s.registry.holds[at],
                s.recorded[at],
                s.spilled[at],
                epoch,
            );
        },
        _ => {},
    }
    assert forall|slot: int| 0 <= slot < crate::registry::MAX_READERS implies (
    #[trigger] t.registry.holds[slot]).accounts_for(t.recorded[slot], t.spilled[slot]) by {
        assert(s.registry.holds[slot].accounts_for(s.recorded[slot], s.spilled[slot]));
    }
    assert forall|slot: int, epoch: u64| #[trigger] t.holds(slot, epoch) implies t.shows(
        epoch,
    ) by {
        if !s.holds(slot, epoch) {
            assert(epoch == s.cell.epoch);
            assert(s.cell.has_block(epoch, s.log[epoch - 1]));
        }
    }
}

/// Every operation keeps the cell and its readers sound.
pub proof fn law_operations_keep_soundness<T>(s: Shared<T>, op: Op<T>)
    requires
        !crate::bridge::blockless::<T>(),
        s.sound(),
        s.allows(op),
    ensures
        s.stepped(op).sound(),
{
    match op {
        Op::Write(_) | Op::WriteLazy(_) => lemma_publishing_is_sound(s, op),
        Op::Reclaim => lemma_sweeping_is_sound(s),
        Op::Take(_) | Op::GiveUp(_, _, _) => lemma_viewing_is_sound(s, op),
        _ => lemma_registering_is_sound(s, op),
    }
}

/// A view shows the value that was current when it was taken, for as long as it is
/// held: after any run of writes, lazy writes, sweeps and operations of any number
/// of readers, the block of every view held is alive and holds what was written at
/// the view's epoch.
pub proof fn law_views_never_move<T>(run: Seq<Op<T>>)
    requires
        !crate::bridge::blockless::<T>(),
        Shared::<T>::initial().allows_all(run),
    ensures
        Shared::<T>::initial().after(run).sound(),
        forall|slot: int, epoch: u64| #[trigger]
            Shared::<T>::initial().after(run).holds(slot, epoch) ==> Shared::<T>::initial().after(
                run,
            ).shows(epoch),
    decreases run.len(),
{
    let start = Shared::<T>::initial();
    if run.len() == 0 {
        lemma_start_is_sound::<T>();
    } else {
        let prefix = run.drop_last();
        assert forall|i: int| 0 <= i < prefix.len() implies start.after(prefix.take(i)).allows(
            #[trigger] prefix[i],
        ) by {
            assert(prefix.take(i) =~= run.take(i));
            assert(prefix[i] == run[i]);
        }
        law_views_never_move(prefix);
        assert(run.take(prefix.len() as int) =~= prefix);
        assert(start.after(prefix).allows(run[prefix.len() as int]));
        law_operations_keep_soundness(start.after(prefix), run.last());
    }
}

proof fn lemma_start_is_sound<T>()
    ensures
        Shared::<T>::initial().sound(),
{
    broadcast use {
        vstd::seq_lib::group_to_multiset_ensures,
        vstd::multiset::group_multiset_axioms,
    };

    crate::registry::lemma_empty_floor();
    assert(crate::registry::HoldView::empty().stack.to_multiset() =~= Multiset::empty());
}

/// Nothing leaks: once no reader holds a view, and none is about to, a sweep leaves
/// nothing retired.
pub proof fn law_nothing_leaks<T>(s: Shared<T>)
    requires
        s.sound(),
        forall|slot: int|
            0 <= slot < crate::registry::MAX_READERS ==> #[trigger] s.registry.settled(slot),
        forall|slot: int|
            0 <= slot < crate::registry::MAX_READERS ==> #[trigger] s.holds_nothing(slot)
                && !s.registry.holds[slot].stuck(),
    ensures
        s.stepped(Op::Reclaim).cell.retired.len() == 0,
{
    assert forall|slot: int| 0 <= slot < crate::registry::MAX_READERS implies (
    #[trigger] s.registry.floors[slot]) == crate::registry::IDLE by {
        assert(s.registry.settled(slot) && s.holds_nothing(slot));
        assert(s.registry.holds[slot].accounts_for(s.recorded[slot], s.spilled[slot]));
        crate::registry::law_no_view_no_floor(s.registry.holds[slot]);
    }
    crate::registry::law_idle_readers_pin_nothing(s.registry);
    crate::bridge::law_idle_sweep_drains(s.cell);
}

/// An adaptive cell whose blocks hold its values, the registry of its readers, and
/// what has happened to them.
pub struct SharedAdaptive<T> {
    pub cell: crate::adaptive::AdaptiveView<T>,
    pub registry: crate::adaptive::AdaptiveRegistryView,
    /// The values of the hot writes, in order.
    pub log: Seq<T>,
    /// The epochs of the zero-copy views each slot's reader holds and has on its
    /// stack.
    pub recorded: Seq<Multiset<u64>>,
    /// The epochs of the zero-copy views each slot's reader holds beyond its stack.
    pub spilled: Seq<Multiset<u64>>,
}

/// One operation of an adaptive cell's writer or of a reader.
pub enum AdaptiveOp<T> {
    /// `write`.
    Write(T),
    /// `reclaim`.
    Reclaim,
    /// `acquire`.
    Acquire,
    /// `read_pinned`, by the reader of a slot.
    Pin(int),
    /// `release` of a zero-copy view of a block, by the reader of a slot; the flag
    /// tells a view beyond the stack.
    GiveUp(int, u64, bool),
    /// `release_demand`, by the reader of a slot.
    Withdraw(int),
    /// `release` of a slot whose reader holds no zero-copy view any more.
    Leave(int),
}

impl<T> SharedAdaptive<T> {
    /// Nothing written, no reader.
    pub open spec fn initial() -> Self {
        SharedAdaptive {
            cell: crate::adaptive::AdaptiveView::empty(),
            registry: crate::adaptive::AdaptiveRegistryView::empty(),
            log: Seq::empty(),
            recorded: Shared::<T>::initial().recorded,
            spilled: Shared::<T>::initial().spilled,
        }
    }

    /// The blocks and the floors alone.
    pub open spec fn blocks(self) -> Shared<T> {
        Shared {
            cell: self.cell.blocks,
            registry: self.registry.floors,
            log: self.log,
            recorded: self.recorded,
            spilled: self.spilled,
        }
    }

    /// The state with these blocks and floors.
    pub open spec fn with_blocks(self, blocks: Shared<T>) -> Self {
        SharedAdaptive {
            cell: crate::adaptive::AdaptiveView { blocks: blocks.cell, ..self.cell },
            registry: self.registry.with_floors(blocks.registry),
            log: blocks.log,
            recorded: blocks.recorded,
            spilled: blocks.spilled,
        }
    }

    /// Whether the reader of a slot holds a zero-copy view of a block.
    pub open spec fn holds(self, slot: int, epoch: u64) -> bool {
        self.blocks().holds(slot, epoch)
    }

    /// Whether the block of an epoch is alive and holds what that hot write wrote.
    pub open spec fn shows(self, epoch: u64) -> bool {
        self.blocks().shows(epoch)
    }

    /// Whether an operation may be made: what its contract requires, and that a
    /// view is given up by the one who holds it.
    pub open spec fn allows(self, op: AdaptiveOp<T>) -> bool {
        match op {
            AdaptiveOp::Write(_) => self.cell.epoch + 1 < crate::seqlock::EPOCH_LIMIT,
            AdaptiveOp::Reclaim => true,
            AdaptiveOp::Acquire => self.blocks().allows(Op::Acquire),
            AdaptiveOp::Pin(slot) | AdaptiveOp::Withdraw(slot) => self.registry.floors.owns(slot),
            AdaptiveOp::GiveUp(slot, epoch, beyond) => self.blocks().allows(
                Op::GiveUp(slot, epoch, beyond),
            ),
            AdaptiveOp::Leave(slot) => self.blocks().allows(Op::Leave(slot)),
        }
    }

    /// The state after an operation.
    pub open spec fn stepped(self, op: AdaptiveOp<T>) -> Self {
        match op {
            AdaptiveOp::Write(value) => SharedAdaptive {
                cell: self.cell.wrote(
                    value,
                    self.registry.demanded(),
                    self.registry.floors.floor_min(),
                ),
                log: if self.cell.goes_hot(self.registry.demanded()) {
                    self.log.push(value)
                } else {
                    self.log
                },
                ..self
            },
            AdaptiveOp::Reclaim => SharedAdaptive {
                cell: self.cell.swept(self.registry.floors.floor_min()),
                ..self
            },
            AdaptiveOp::Acquire => self.with_blocks(self.blocks().stepped(Op::Acquire)),
            AdaptiveOp::Pin(slot) => {
                let pinned = if self.cell.hot {
                    self.with_blocks(self.blocks().stepped(Op::Take(slot)))
                } else {
                    self
                };
                SharedAdaptive { registry: pinned.registry.demanding(slot, true), ..pinned }
            },
            AdaptiveOp::GiveUp(slot, epoch, beyond) => self.with_blocks(
                self.blocks().stepped(Op::GiveUp(slot, epoch, beyond)),
            ),
            AdaptiveOp::Withdraw(slot) => SharedAdaptive {
                registry: self.registry.demanding(slot, false),
                ..self
            },
            AdaptiveOp::Leave(slot) => {
                let left = self.with_blocks(self.blocks().stepped(Op::Leave(slot)));
                SharedAdaptive { registry: left.registry.demanding(slot, false), ..left }
            },
        }
    }

    /// The state after a run of operations.
    pub open spec fn after(self, run: Seq<AdaptiveOp<T>>) -> Self
        decreases run.len(),
    {
        if run.len() == 0 {
            self
        } else {
            self.after(run.drop_last()).stepped(run.last())
        }
    }

    /// Whether every operation of a run may be made when its turn comes.
    pub open spec fn allows_all(self, run: Seq<AdaptiveOp<T>>) -> bool {
        forall|i: int|
            0 <= i < run.len() ==> self.after(run.take(i)).allows(#[trigger] run[i])
    }

    /// What every reachable state satisfies: a valid cell and registry, and sound
    /// blocks.
    pub open spec fn sound(self) -> bool {
        &&& self.cell.valid()
        &&& self.registry.valid()
        &&& self.blocks().sound()
    }
}

proof fn lemma_adaptive_write_is_sound<T>(s: SharedAdaptive<T>, value: T)
    requires
        !crate::bridge::blockless::<T>(),
        s.sound(),
        s.allows(AdaptiveOp::Write(value)),
    ensures
        s.stepped(AdaptiveOp::Write(value)).sound(),
{
    let t = s.stepped(AdaptiveOp::Write(value));
    crate::adaptive::law_writes_keep_validity(
        s.cell,
        value,
        s.registry.demanded(),
        s.registry.floors.floor_min(),
    );
    let published = if s.cell.goes_hot(s.registry.demanded()) {
        law_operations_keep_soundness(s.blocks(), Op::Write(value));
        s.blocks().stepped(Op::Write(value))
    } else {
        s.blocks()
    };
    law_operations_keep_soundness(published, Op::Reclaim);
    assert(t.blocks() == published || t.blocks() == published.stepped(Op::Reclaim));
}

/// Every operation keeps an adaptive cell and its readers sound. A pinned read of a
/// hot cell finds the block of the last hot write, which holds the cell's value.
pub proof fn law_adaptive_operations_keep_soundness<T>(s: SharedAdaptive<T>, op: AdaptiveOp<T>)
    requires
        !crate::bridge::blockless::<T>(),
        s.sound(),
        s.allows(op),
    ensures
        s.stepped(op).sound(),
        s.log.is_prefix_of(s.stepped(op).log),
        op matches AdaptiveOp::Pin(slot) ==> (s.cell.hot ==> {
            &&& s.stepped(op).holds(slot, s.cell.blocks.epoch)
            &&& s.cell.blocks.epoch == s.log.len()
            &&& s.cell.value == Some(s.log.last())
        }),
{
    broadcast use vstd::multiset::group_multiset_axioms;

    let t = s.stepped(op);
    match op {
        AdaptiveOp::Write(value) => lemma_adaptive_write_is_sound(s, value),
        AdaptiveOp::Reclaim => {
            law_operations_keep_soundness(s.blocks(), Op::Reclaim);
            assert(t.blocks() == s.blocks().stepped(Op::Reclaim));
        },
        AdaptiveOp::Acquire => {
            law_operations_keep_soundness(s.blocks(), Op::Acquire);
            assert(t.blocks() == s.blocks().stepped(Op::Acquire));
        },
        AdaptiveOp::Pin(slot) => {
            if s.cell.hot {
                law_operations_keep_soundness(s.blocks(), Op::Take(slot));
                assert(t.blocks() == s.blocks().stepped(Op::Take(slot)));
            } else {
                assert(t.blocks() == s.blocks());
            }
        },
        AdaptiveOp::GiveUp(slot, epoch, beyond) => {
            law_operations_keep_soundness(s.blocks(), Op::GiveUp(slot, epoch, beyond));
            assert(t.blocks() == s.blocks().stepped(Op::GiveUp(slot, epoch, beyond)));
        },
        AdaptiveOp::Withdraw(_) => {
            assert(t.blocks() == s.blocks());
        },
        AdaptiveOp::Leave(slot) => {
            law_operations_keep_soundness(s.blocks(), Op::Leave(slot));
            assert(t.blocks() == s.blocks().stepped(Op::Leave(slot)));
        },
    }
}

/// A pinned view shows the value that was current when it was taken, for as long as it
/// is held: after any run of writes in whatever modes, sweeps, and operations of any
/// number of readers, the block of every zero-copy view held is alive and holds what
/// its hot write wrote.
pub proof fn law_pinned_views_never_move<T>(run: Seq<AdaptiveOp<T>>)
    requires
        !crate::bridge::blockless::<T>(),
        SharedAdaptive::<T>::initial().allows_all(run),
    ensures
        SharedAdaptive::<T>::initial().after(run).sound(),
        forall|slot: int, epoch: u64| #[trigger]
            SharedAdaptive::<T>::initial().after(run).holds(slot, epoch)
                ==> SharedAdaptive::<T>::initial().after(run).shows(epoch),
    decreases run.len(),
{
    let start = SharedAdaptive::<T>::initial();
    if run.len() == 0 {
        lemma_start_is_sound::<T>();
        assert(start.blocks() == Shared::<T>::initial());
    } else {
        let prefix = run.drop_last();
        assert forall|i: int| 0 <= i < prefix.len() implies start.after(prefix.take(i)).allows(
            #[trigger] prefix[i],
        ) by {
            assert(prefix.take(i) =~= run.take(i));
            assert(prefix[i] == run[i]);
        }
        law_pinned_views_never_move(prefix);
        assert(run.take(prefix.len() as int) =~= prefix);
        assert(start.after(prefix).allows(run[prefix.len() as int]));
        law_adaptive_operations_keep_soundness(start.after(prefix), run.last());
    }
    let end = start.after(run);
    assert forall|slot: int, epoch: u64| #[trigger] end.holds(slot, epoch) implies end.shows(
        epoch,
    ) by {
        assert(end.blocks().holds(slot, epoch));
    }
}

/// What `read_ref` does to the registry is what taking a view does here, and what
/// `read_pinned` does to it is what a pinned read does here, from every state.
pub proof fn law_reads_are_the_operations<T>(
    s: Shared<T>,
    a: SharedAdaptive<T>,
    slot: int,
)
    requires
        !crate::bridge::blockless::<T>(),
        a.cell.valid(),
    ensures
        s.allows(Op::Take(slot)) ==> s.cell.viewed(s.registry, slot) == s.stepped(
            Op::Take(slot),
        ).registry,
        a.allows(AdaptiveOp::Pin(slot)) ==> a.registry.demanding(slot, true).with_floors(
            if a.cell.hot {
                a.cell.blocks.viewed(a.registry.floors, slot)
            } else {
                a.registry.floors
            },
        ) == a.stepped(AdaptiveOp::Pin(slot)).registry,
{
    if a.allows(AdaptiveOp::Pin(slot)) {
        assert(a.registry.demanding(slot, true).with_floors(
            if a.cell.hot {
                a.cell.blocks.viewed(a.registry.floors, slot)
            } else {
                a.registry.floors
            },
        ) =~= a.stepped(AdaptiveOp::Pin(slot)).registry);
    }
}

/// A view of an epoch stays good for as long as anyone holds one: after any one operation,
/// a reader that held a view of an epoch and did not itself give it up holds it still, and
/// the block shows what it showed.
pub proof fn law_only_its_reader_ends_a_view<T>(
    s: Shared<T>,
    op: Op<T>,
    slot: int,
    epoch: u64,
)
    requires
        !crate::bridge::blockless::<T>(),
        s.sound(),
        s.allows(op),
        s.holds(slot, epoch),
        op matches Op::GiveUp(at, given_up, _) ==> at != slot || given_up != epoch,
    ensures
        s.stepped(op).holds(slot, epoch),
        s.stepped(op).shows(epoch),
        s.stepped(op).registry.floor_min() <= epoch,
        s.stepped(op).log[epoch - 1] == s.log[epoch - 1],
{
    broadcast use vstd::multiset::group_multiset_axioms;

    let t = s.stepped(op);
    law_operations_keep_soundness(s, op);
    assert(s.shows(epoch));
    assert(t.holds(slot, epoch));
    assert(t.registry.holds[slot].accounts_for(t.recorded[slot], t.spilled[slot]));
    crate::registry::law_floor_min_covers_every_reader(
        t.registry,
        slot,
        t.recorded[slot],
        t.spilled[slot],
        epoch,
    );
}

} // verus!
