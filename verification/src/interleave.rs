//! What holds when the steps of a writer and a reader interleave.
//!
//! The other modules say what an operation does from start to finish. Here an
//! operation is a sequence of single loads and stores, and between any two of them
//! the other thread may take any number of its own steps. Every step is taken to be
//! visible to both threads at once.
use crate::registry::IDLE;
use vstd::prelude::*;

verus! {

/// Whether consecutive states of a trace are related by `step`.
pub open spec fn is_trace<S>(trace: Seq<S>, step: spec_fn(S, S) -> bool) -> bool {
    forall|i: int| 0 <= i && i + 1 < trace.len() ==> step(#[trigger] trace[i], trace[i + 1])
}

// ---------------------------------------------------------------------------
// The seqlock bracket
// ---------------------------------------------------------------------------

/// What a seqlock's threads share: the control word, and the slot as the pieces
/// that a copy moves one at a time.
pub struct Bracket<L> {
    pub ctrl: u64,
    pub lanes: Seq<L>,
}

/// Completed and begun writes of a control word, in one count.
pub open spec fn progress(c: u64) -> int {
    2 * crate::seqlock::word_epoch(c) + (if crate::seqlock::word_busy(c) {
        1int
    } else {
        0
    })
}

/// The writer stores the in-progress word, in either mode.
pub open spec fn begins<L>(s: Bracket<L>, t: Bracket<L>) -> bool {
    &&& !crate::seqlock::word_busy(s.ctrl)
    &&& t.lanes == s.lanes
    &&& t.ctrl == crate::seqlock::word(crate::seqlock::word_epoch(s.ctrl), true, false) || t.ctrl
        == crate::seqlock::word(crate::seqlock::word_epoch(s.ctrl), true, true)
}

/// The writer stores one piece of the slot.
pub open spec fn stores_lane<L>(s: Bracket<L>, t: Bracket<L>) -> bool {
    &&& crate::seqlock::word_busy(s.ctrl)
    &&& t.ctrl == s.ctrl
    &&& t.lanes.len() == s.lanes.len()
}

/// The writer stores the completed word.
pub open spec fn commits<L>(s: Bracket<L>, t: Bracket<L>) -> bool {
    &&& crate::seqlock::word_busy(s.ctrl)
    &&& t.lanes == s.lanes
    &&& t.ctrl == crate::seqlock::word(
        crate::seqlock::word_epoch(s.ctrl) + 1,
        false,
        crate::seqlock::word_hot(s.ctrl),
    )
}

/// One step of the writer, or one of a reader, which changes nothing.
pub open spec fn bracket_step<L>() -> spec_fn(Bracket<L>, Bracket<L>) -> bool {
    |s: Bracket<L>, t: Bracket<L>| t == s || begins(s, t) || stores_lane(s, t) || commits(s, t)
}

/// Readers never see the write count go back.
pub proof fn law_epoch_never_goes_back<L>(trace: Seq<Bracket<L>>, i: int, j: int)
    requires
        is_trace(trace, bracket_step()),
        0 <= i <= j < trace.len(),
    ensures
        progress(trace[i].ctrl) <= progress(trace[j].ctrl),
        crate::seqlock::word_epoch(trace[i].ctrl) <= crate::seqlock::word_epoch(trace[j].ctrl),
    decreases j - i,
{
    if i < j {
        law_epoch_never_goes_back(trace, i, j - 1);
        let s = trace[j - 1];
        let t = trace[j - 1 + 1];
        assert(bracket_step()(s, t));
    }
}

/// Between two loads of the same word with no write under way, nothing changed.
proof fn lemma_quiet_interval<L>(trace: Seq<Bracket<L>>, i: int, k: int, j: int)
    requires
        is_trace(trace, bracket_step()),
        0 <= i <= k <= j < trace.len(),
        !crate::seqlock::word_busy(trace[i].ctrl),
        trace[j].ctrl == trace[i].ctrl,
    ensures
        trace[k] == trace[i],
    decreases k - i,
{
    if i < k {
        lemma_quiet_interval(trace, i, k - 1, j);
        law_epoch_never_goes_back(trace, k, j);
        let s = trace[k - 1];
        let t = trace[k - 1 + 1];
        assert(bracket_step()(s, t));
        assert(!begins(s, t));
    }
}

/// No torn reads. A reader loads the control word, finds no write under way,
/// copies the slot piece by piece at whatever moments, and loads the same word
/// again: then the pieces together are the slot as it was at the first load.
pub proof fn law_no_torn_read<L>(trace: Seq<Bracket<L>>, i: int, j: int, copied_at: Seq<int>)
    requires
        is_trace(trace, bracket_step()),
        0 <= i <= j < trace.len(),
        !crate::seqlock::word_busy(trace[i].ctrl),
        trace[j].ctrl == trace[i].ctrl,
        copied_at.len() == trace[i].lanes.len(),
        forall|p: int| 0 <= p < copied_at.len() ==> i <= #[trigger] copied_at[p] <= j,
    ensures
        Seq::new(copied_at.len(), |p: int| trace[copied_at[p]].lanes[p]) == trace[i].lanes,
{
    let copy = Seq::new(copied_at.len(), |p: int| trace[copied_at[p]].lanes[p]);
    assert forall|p: int| 0 <= p < copy.len() implies copy[p] == trace[i].lanes[p] by {
        lemma_quiet_interval(trace, i, copied_at[p], j);
    }
    assert(copy =~= trace[i].lanes);
}

// ---------------------------------------------------------------------------
// Head before epoch
// ---------------------------------------------------------------------------

/// What the threads of an inline cell share: its two words. The log holds the values
/// whose head words have been stored, in order.
pub struct Publishing<T> {
    pub bits: u64,
    pub epoch: u64,
    pub log: Seq<T>,
}

impl<T: crate::payload::Payload> Publishing<T> {
    /// The start: nothing stored.
    pub open spec fn initial(self) -> bool {
        self.bits == 0 && self.epoch == 0 && self.log == Seq::<T>::empty()
    }

    /// What every reachable state satisfies: the head is that of the newest value,
    /// and the epoch is behind it by one publication at most.
    pub open spec fn orderly(self) -> bool {
        &&& self.epoch <= self.log.len() <= self.epoch + 1
        &&& self.log.len() > 0 ==> self.bits == crate::payload::tagged(self.log.last().word())
    }
}

/// The writer stores the encoded head of a value.
pub open spec fn stores_head<T: crate::payload::Payload>(
    s: Publishing<T>,
    t: Publishing<T>,
) -> bool {
    &&& s.log.len() == s.epoch
    &&& t.epoch == s.epoch
    &&& t.log.len() == s.log.len() + 1
    &&& s.log == t.log.drop_last()
    &&& t.bits == crate::payload::tagged(t.log.last().word())
}

/// The writer stores the epoch, after the head.
pub open spec fn stores_epoch<T>(s: Publishing<T>, t: Publishing<T>) -> bool {
    &&& s.log.len() == s.epoch + 1
    &&& t.epoch == s.epoch + 1
    &&& t.bits == s.bits
    &&& t.log == s.log
}

/// One step of the writer, or one of a reader, which changes nothing.
pub open spec fn publishing_step<T: crate::payload::Payload>() -> spec_fn(
    Publishing<T>,
    Publishing<T>,
) -> bool {
    |s: Publishing<T>, t: Publishing<T>| t == s || stores_head(s, t) || stores_epoch(s, t)
}

proof fn lemma_publishing_is_orderly<T: crate::payload::Payload>(
    trace: Seq<Publishing<T>>,
    i: int,
)
    requires
        is_trace(trace, publishing_step()),
        0 <= i < trace.len(),
        trace[0].initial(),
    ensures
        trace[i].orderly(),
    decreases i,
{
    if i > 0 {
        lemma_publishing_is_orderly(trace, i - 1);
        assert(publishing_step()(trace[i - 1], trace[i - 1 + 1]));
    }
}

proof fn lemma_publications_advance<T: crate::payload::Payload>(
    trace: Seq<Publishing<T>>,
    i: int,
    j: int,
)
    requires
        is_trace(trace, publishing_step()),
        0 <= i <= j < trace.len(),
        trace[0].initial(),
    ensures
        trace[i].log.len() <= trace[j].log.len(),
        trace[i].epoch <= trace[j].epoch,
    decreases j - i,
{
    if i < j {
        lemma_publications_advance(trace, i, j - 1);
        assert(publishing_step()(trace[j - 1], trace[j - 1 + 1]));
    }
}

/// A reader loads the epoch first and the head after it, and makes of the two words
/// what `read_loaded` makes of them. Then it finds nothing only if no write had
/// completed; otherwise it finds the newest value as of its load of the head, which is
/// no older than the epoch it reports, and a later read does not report an older
/// epoch.
pub proof fn law_value_is_no_older_than_its_epoch<T: crate::payload::Payload>(
    trace: Seq<Publishing<T>>,
    epoch_load: int,
    head_load: int,
    later_epoch_load: int,
    last_epoch: u64,
    result: crate::epoch::ReadResult<T>,
)
    requires
        T::inline(),
        is_trace(trace, publishing_step()),
        trace[0].initial(),
        0 <= epoch_load <= head_load <= later_epoch_load < trace.len(),
        crate::cell::loaded(
            trace[epoch_load].epoch,
            trace[head_load].bits,
            last_epoch,
            result,
        ),
    ensures
        match result {
            crate::epoch::ReadResult::Empty => trace[epoch_load].epoch == 0,
            crate::epoch::ReadResult::Value { value, epoch, .. } => {
                &&& trace[head_load].log.len() > 0
                &&& value == trace[head_load].log.last()
                &&& epoch == trace[epoch_load].epoch
                &&& epoch <= trace[head_load].log.len()
                &&& trace[head_load].log.len() <= trace[later_epoch_load].epoch + 1
                &&& epoch <= trace[later_epoch_load].epoch
            },
        },
{
    lemma_publishing_is_orderly(trace, epoch_load);
    lemma_publishing_is_orderly(trace, head_load);
    lemma_publishing_is_orderly(trace, later_epoch_load);
    lemma_publications_advance(trace, epoch_load, head_load);
    lemma_publications_advance(trace, head_load, later_epoch_load);
    let log = trace[head_load].log;
    if trace[epoch_load].epoch > 0 {
        let newest = log.last();
        assert(trace[head_load].bits % 2 == 1);
        let found = match result {
            crate::epoch::ReadResult::Empty => None,
            crate::epoch::ReadResult::Value { value, .. } => Some(value),
        };
        crate::payload::law_inline_round_trip(newest, found);
    }
}

// ---------------------------------------------------------------------------
// Pinning
// ---------------------------------------------------------------------------

/// How far a reader has come with taking a view.
pub enum Phase {
    /// Is not taking one.
    Idle,
    /// Has published the lowest floor.
    Announced,
    /// Has loaded the head and found this epoch.
    Saw(int),
}

/// What a lazy write has done about the block it superseded.
pub enum Superseded {
    /// There is no such block, or it has been dealt with.
    Settled,
    /// The new head is in place; the readers have not been looked at yet.
    Pending(int),
    /// The reader was looked at, and did not stand in the way.
    Doomed(int),
}

/// What a bridged cell's writer and one of its readers share, and where each of
/// the two stands. Whatever other readers there are can only make the writer free
/// less.
pub struct Pinning {
    /// The epoch of the head block.
    pub head: int,
    /// The epochs of the retired blocks.
    pub retired: Set<int>,
    /// Whether the reader has claimed its slot.
    pub registered: bool,
    /// The floor the reader publishes.
    pub floor: int,
    /// The epochs of the views the reader holds.
    pub held: Set<int>,
    /// How far it has come with taking one more.
    pub reader: Phase,
    /// The lowest floor that a sweep under way has found.
    pub sweep: Option<int>,
    /// The block of a lazy write under way.
    pub lazy: Superseded,
}

impl Pinning {
    /// Whether the block with this epoch has not been freed.
    pub open spec fn alive(self, epoch: int) -> bool {
        ||| epoch == self.head
        ||| self.retired.contains(epoch)
        ||| self.lazy == Superseded::Pending(epoch)
        ||| self.lazy == Superseded::Doomed(epoch)
    }

    /// Whether the reader may look at the block with this epoch: it holds a view
    /// of it, or has found it and is about to.
    pub open spec fn in_sight(self, epoch: int) -> bool {
        self.held.contains(epoch) || self.reader == Phase::Saw(epoch)
    }

    /// The start: one block, no reader, no sweep.
    pub open spec fn initial(self) -> bool {
        &&& self.head == 1
        &&& self.retired == Set::<int>::empty()
        &&& !self.registered
        &&& self.floor == IDLE
        &&& self.held == Set::<int>::empty()
        &&& self.reader is Idle
        &&& self.sweep is None
        &&& self.lazy is Settled
    }

    /// What every reachable state satisfies. A sweep under way that might free a
    /// block in sight must have looked at the floor before the reader announced
    /// itself, and then the block is still the head.
    pub open spec fn safe(self) -> bool {
        &&& self.head >= 1
        &&& forall|e: int| #[trigger] self.retired.contains(e) ==> 1 <= e < self.head
        &&& self.lazy matches Superseded::Pending(e) ==> 1 <= e < self.head
        &&& self.lazy matches Superseded::Doomed(e) ==> 1 <= e < self.head
        &&& self.sweep is Some ==> self.lazy is Settled
        &&& !self.registered ==> self.reader is Idle && self.held == Set::<int>::empty()
        &&& self.reader !is Idle ==> self.floor == 1
        &&& forall|e: int| #[trigger]
            self.in_sight(e) ==> {
                &&& e >= 1
                &&& self.floor <= e
                &&& self.alive(e)
                &&& self.lazy != Superseded::Doomed(e)
                &&& self.sweep matches Some(lowest) ==> lowest <= e || e == self.head
            }
    }
}

/// The writer publishes a block and retires the one it supersedes. It does so
/// neither in the middle of its own sweep nor of its own lazy write.
pub open spec fn writes(s: Pinning, t: Pinning) -> bool {
    &&& s.sweep is None
    &&& s.lazy is Settled
    &&& t == Pinning { head: s.head + 1, retired: s.retired.insert(s.head), ..s }
}

/// A lazy write publishes its block.
pub open spec fn writes_lazily(s: Pinning, t: Pinning) -> bool {
    &&& s.sweep is None
    &&& s.lazy is Settled
    &&& t == Pinning { head: s.head + 1, lazy: Superseded::Pending(s.head), ..s }
}

/// A lazy write finds that the reader is not in the way: no slot was ever claimed,
/// or the reader's floor lies above the superseded block.
pub open spec fn dooms(s: Pinning, t: Pinning) -> bool {
    s.lazy matches Superseded::Pending(epoch) && {
        &&& !s.registered || s.floor > epoch
        &&& t == Pinning { lazy: Superseded::Doomed(epoch), ..s }
    }
}

/// A lazy write frees the superseded block.
pub open spec fn frees_superseded(s: Pinning, t: Pinning) -> bool {
    s.lazy is Doomed && t == Pinning { lazy: Superseded::Settled, ..s }
}

/// A lazy write retires the superseded block after all: this reader or another
/// one is in the way.
pub open spec fn retires_superseded(s: Pinning, t: Pinning) -> bool {
    match s.lazy {
        Superseded::Settled => false,
        Superseded::Pending(epoch) | Superseded::Doomed(epoch) => t == Pinning {
            retired: s.retired.insert(epoch),
            lazy: Superseded::Settled,
            ..s
        },
    }
}

/// The writer's sweep has gone through all floors. The reader's was among them,
/// so what it found is no higher than that.
pub open spec fn scans(s: Pinning, t: Pinning) -> bool {
    &&& s.sweep is None
    &&& s.lazy is Settled
    &&& t.sweep is Some
    &&& t.sweep->0 <= s.floor
    &&& t == Pinning { sweep: t.sweep, ..s }
}

/// The sweep frees the retired blocks below the lowest floor it has found.
pub open spec fn frees(s: Pinning, t: Pinning) -> bool {
    &&& s.sweep is Some
    &&& t == Pinning { retired: s.retired.filter(|e: int| e >= s.sweep->0), sweep: None, ..s }
}

/// One step of the writer.
pub open spec fn writer_moves(s: Pinning, t: Pinning) -> bool {
    ||| writes(s, t)
    ||| writes_lazily(s, t)
    ||| dooms(s, t)
    ||| frees_superseded(s, t)
    ||| retires_superseded(s, t)
    ||| scans(s, t)
    ||| frees(s, t)
}

/// Whether a floor lies at or below all of some epochs.
pub open spec fn covers(floor: int, held: Set<int>) -> bool {
    forall|e: int| #[trigger] held.contains(e) ==> floor <= e
}

/// The reader claims its slot.
pub open spec fn registers(s: Pinning, t: Pinning) -> bool {
    !s.registered && t == Pinning { registered: true, ..s }
}

/// The reader takes a view in three steps, whether or not it holds others: it
/// publishes the lowest floor, loads the head, and then publishes a floor that
/// covers all views it now holds.
pub open spec fn takes_view(s: Pinning, t: Pinning) -> bool {
    match s.reader {
        Phase::Idle => s.registered && t == Pinning { floor: 1, reader: Phase::Announced, ..s },
        Phase::Announced => t == Pinning { reader: Phase::Saw(s.head), ..s },
        Phase::Saw(epoch) => {
            &&& t.held == s.held.insert(epoch)
            &&& covers(t.floor, t.held)
            &&& t == Pinning { floor: t.floor, held: t.held, reader: Phase::Idle, ..s }
        },
    }
}

/// The reader breaks off taking a view, and publishes a floor that covers the views
/// it holds.
pub open spec fn breaks_off(s: Pinning, t: Pinning) -> bool {
    &&& s.reader !is Idle
    &&& covers(t.floor, s.held)
    &&& t == Pinning { floor: t.floor, reader: Phase::Idle, ..s }
}

/// The reader gives views up, and publishes a floor that covers those it keeps.
pub open spec fn gives_up(s: Pinning, t: Pinning) -> bool {
    &&& s.reader is Idle
    &&& t.held.subset_of(s.held)
    &&& covers(t.floor, t.held)
    &&& t == Pinning { floor: t.floor, held: t.held, ..s }
}

/// One step of the writer or of the reader.
pub open spec fn pinning_step() -> spec_fn(Pinning, Pinning) -> bool {
    |s: Pinning, t: Pinning|
        {
            ||| t == s
            ||| writer_moves(s, t)
            ||| registers(s, t)
            ||| takes_view(s, t)
            ||| breaks_off(s, t)
            ||| gives_up(s, t)
        }
}

proof fn lemma_step_is_safe(s: Pinning, t: Pinning)
    requires
        s.safe(),
        pinning_step()(s, t),
    ensures
        t.safe(),
{
    assert forall|e: int| #[trigger] t.in_sight(e) implies {
        &&& e >= 1
        &&& t.floor <= e
        &&& t.alive(e)
        &&& t.lazy != Superseded::Doomed(e)
        &&& t.sweep matches Some(lowest) ==> lowest <= e || e == t.head
    } by {
        assert(s.in_sight(e) || (s.reader is Announced && e == s.head));
    }
    if !t.registered {
        assert(t.held =~= Set::empty());
    }
}

/// A block that a reader holds a view of, or has found, is never freed before the
/// reader gives it up, whatever the order in which writes, lazy writes, sweeps and
/// the reader's own steps fall, and however many views the reader holds.
pub proof fn law_block_in_sight_is_never_freed(trace: Seq<Pinning>, i: int)
    requires
        is_trace(trace, pinning_step()),
        0 <= i < trace.len(),
        trace[0].initial(),
    ensures
        trace[i].safe(),
        forall|epoch: int| #[trigger] trace[i].in_sight(epoch) ==> trace[i].alive(epoch),
    decreases i,
{
    if i > 0 {
        law_block_in_sight_is_never_freed(trace, i - 1);
        lemma_step_is_safe(trace[i - 1], trace[i - 1 + 1]);
    }
}

// ---------------------------------------------------------------------------
// Hot publication inside the bracket
// ---------------------------------------------------------------------------

/// What an adaptive cell's threads share about hot writes: the control word, and
/// which write's value the head block holds.
pub struct HotBracket {
    pub ctrl: u64,
    pub head_write: int,
}

impl HotBracket {
    /// A completed hot word means a fresh head; the head is never ahead of the
    /// write under way.
    pub open spec fn fresh(self) -> bool {
        &&& crate::seqlock::word_hot(self.ctrl) && !crate::seqlock::word_busy(self.ctrl)
            ==> self.head_write == crate::seqlock::word_epoch(self.ctrl)
        &&& self.head_write <= crate::seqlock::word_epoch(self.ctrl) + (
        if crate::seqlock::word_busy(self.ctrl) {
            1int
        } else {
            0
        })
    }
}

/// A write begins, in either mode.
pub open spec fn hot_begins(s: HotBracket, t: HotBracket) -> bool {
    begins(
        Bracket::<int> { ctrl: s.ctrl, lanes: Seq::empty() },
        Bracket::<int> { ctrl: t.ctrl, lanes: Seq::empty() },
    ) && t.head_write == s.head_write
}

/// A hot write publishes its block.
pub open spec fn hot_publishes(s: HotBracket, t: HotBracket) -> bool {
    &&& crate::seqlock::word_busy(s.ctrl)
    &&& crate::seqlock::word_hot(s.ctrl)
    &&& t.ctrl == s.ctrl
    &&& t.head_write == crate::seqlock::word_epoch(s.ctrl) + 1
}

/// A write completes; a hot one only after it has published its block.
pub open spec fn hot_commits(s: HotBracket, t: HotBracket) -> bool {
    &&& commits(
        Bracket::<int> { ctrl: s.ctrl, lanes: Seq::empty() },
        Bracket::<int> { ctrl: t.ctrl, lanes: Seq::empty() },
    )
    &&& t.head_write == s.head_write
    &&& crate::seqlock::word_hot(s.ctrl) ==> s.head_write == crate::seqlock::word_epoch(s.ctrl) + 1
}

/// One step of the writer, or one of a reader, which changes nothing.
pub open spec fn hot_step() -> spec_fn(HotBracket, HotBracket) -> bool {
    |s: HotBracket, t: HotBracket|
        t == s || hot_begins(s, t) || hot_publishes(s, t) || hot_commits(s, t)
}

proof fn lemma_head_stays_fresh(trace: Seq<HotBracket>, i: int)
    requires
        is_trace(trace, hot_step()),
        0 <= i < trace.len(),
        trace[0].fresh(),
    ensures
        trace[i].fresh(),
    decreases i,
{
    if i > 0 {
        lemma_head_stays_fresh(trace, i - 1);
        assert(hot_step()(trace[i - 1], trace[i - 1 + 1]));
    }
}

proof fn lemma_head_advances(trace: Seq<HotBracket>, i: int, j: int)
    requires
        is_trace(trace, hot_step()),
        0 <= i <= j < trace.len(),
        trace[0].fresh(),
    ensures
        trace[i].head_write <= trace[j].head_write,
    decreases j - i,
{
    if i < j {
        lemma_head_advances(trace, i, j - 1);
        lemma_head_stays_fresh(trace, j - 1);
        assert(hot_step()(trace[j - 1], trace[j - 1 + 1]));
    }
}

/// A pinned reader that finds a completed hot word and then looks at the head
/// gets a block at least as new as the epoch it reports.
pub proof fn law_pinned_view_is_no_older_than_its_epoch(
    trace: Seq<HotBracket>,
    word_load: int,
    head_load: int,
)
    requires
        is_trace(trace, hot_step()),
        0 <= word_load <= head_load < trace.len(),
        trace[0].fresh(),
        crate::seqlock::word_hot(trace[word_load].ctrl),
        !crate::seqlock::word_busy(trace[word_load].ctrl),
    ensures
        crate::seqlock::word_epoch(trace[word_load].ctrl) <= trace[head_load].head_write,
{
    lemma_head_stays_fresh(trace, word_load);
    lemma_head_advances(trace, word_load, head_load);
}

// ---------------------------------------------------------------------------
// The queue's two positions
// ---------------------------------------------------------------------------

/// How far the producer has come with a push.
pub enum Producing {
    /// Is not pushing.
    Resting,
    /// Has loaded the consumer's position and found room.
    FoundRoom,
    /// Has filled the slot at its own position.
    Filled,
}

/// How far the consumer has come with a pop.
pub enum Consuming<T> {
    /// Is not popping.
    Resting,
    /// Has loaded the producer's position and found an item.
    FoundItem,
    /// Has taken this item out of the slot at its own position.
    Took(T),
}

/// What the two threads of a queue share, and where each of them stands. A
/// position is the number of items that have passed it; the item at position `k`
/// goes through slot `k % slots.len()`.
pub struct Passing<T> {
    pub slots: Seq<T>,
    /// The items pushed so far and, once its slot is filled, the one under way.
    pub sent: Seq<T>,
    /// The items popped so far.
    pub received: Seq<T>,
    /// The producer's position.
    pub tail: int,
    /// The consumer's position.
    pub head: int,
    pub producer: Producing,
    pub consumer: Consuming<T>,
}

impl<T> Passing<T> {
    /// The start: some slots, nothing passed.
    pub open spec fn initial(self) -> bool {
        &&& self.slots.len() >= 1
        &&& self.sent == Seq::<T>::empty()
        &&& self.received == Seq::<T>::empty()
        &&& self.tail == 0
        &&& self.head == 0
        &&& self.producer is Resting
        &&& self.consumer is Resting
    }

    /// What every reachable state satisfies.
    pub open spec fn orderly(self) -> bool {
        &&& self.slots.len() >= 1
        &&& 0 <= self.head <= self.tail <= self.head + self.slots.len()
        &&& self.producer !is Resting ==> self.tail < self.head + self.slots.len()
        &&& self.sent.len() == self.tail + (if self.producer is Filled {
            1int
        } else {
            0
        })
        &&& forall|k: int|
            self.head <= k < self.sent.len() ==> self.slots[k % (self.slots.len() as int)]
                == #[trigger] self.sent[k]
        &&& self.received == self.sent.take(self.head)
        &&& self.consumer !is Resting ==> self.head < self.tail
        &&& self.consumer matches Consuming::Took(item) ==> item == self.sent[self.head]
    }
}

/// The producer pushes in three steps: it looks for room, fills the slot, and
/// only then moves its position on. A full queue stops it at the first step.
pub open spec fn pushes<T>(s: Passing<T>, t: Passing<T>) -> bool {
    match s.producer {
        Producing::Resting => {
            &&& s.tail - s.head < s.slots.len()
            &&& t == Passing { producer: Producing::FoundRoom, ..s }
        },
        Producing::FoundRoom => exists|item: T|
            t == (Passing {
                slots: #[trigger] s.slots.update(s.tail % (s.slots.len() as int), item),
                sent: s.sent.push(item),
                producer: Producing::Filled,
                ..s
            }),
        Producing::Filled => t == Passing { tail: s.tail + 1, producer: Producing::Resting, ..s },
    }
}

/// The consumer pops in three steps: it looks for an item, takes it out of the
/// slot, and only then moves its position on. An empty queue stops it at the first
/// step.
pub open spec fn pops<T>(s: Passing<T>, t: Passing<T>) -> bool {
    match s.consumer {
        Consuming::Resting => {
            &&& s.head < s.tail
            &&& t == Passing { consumer: Consuming::FoundItem, ..s }
        },
        Consuming::FoundItem => t == Passing {
            consumer: Consuming::Took(s.slots[s.head % (s.slots.len() as int)]),
            ..s
        },
        Consuming::Took(item) => t == Passing {
            received: s.received.push(item),
            head: s.head + 1,
            consumer: Consuming::Resting,
            ..s
        },
    }
}

/// One step of the producer or of the consumer.
pub open spec fn passing_step<T>() -> spec_fn(Passing<T>, Passing<T>) -> bool {
    |s: Passing<T>, t: Passing<T>| t == s || pushes(s, t) || pops(s, t)
}

/// Filling the slot at the producer's position leaves the slots of the waiting items
/// alone.
pub proof fn lemma_fill_spares_waiting_items<T>(s: Passing<T>, item: T)
    requires
        s.orderly(),
        s.producer is FoundRoom,
    ensures
        forall|k: int|
            s.head <= k <= s.tail ==> s.slots.update(s.tail % (s.slots.len() as int), item)[k % (
            s.slots.len() as int)] == #[trigger] s.sent.push(item)[k],
{
    let n = s.slots.len() as int;
    let at = s.tail % n;
    vstd::arithmetic::div_mod::lemma_mod_bound(s.tail, n);
    assert forall|k: int| s.head <= k <= s.tail implies s.slots.update(at, item)[k % n]
        == #[trigger] s.sent.push(item)[k] by {
        if k < s.tail {
            vstd::arithmetic::div_mod::lemma_mod_bound(k, n);
            assert(s.slots[k % n] == s.sent[k]);
            if k % n == at {
                vstd::arithmetic::div_mod::lemma_fundamental_div_mod(k, n);
                vstd::arithmetic::div_mod::lemma_fundamental_div_mod(s.tail, n);
                assert(s.tail - k == n * (s.tail / n - k / n)) by (nonlinear_arith)
                    requires
                        k == n * (k / n) + at,
                        s.tail == n * (s.tail / n) + at,
                ;
                let laps = s.tail / n - k / n;
                assert(laps <= 0 || n * laps >= n) by (nonlinear_arith)
                    requires
                        n >= 1,
                ;
                assert(laps > 0 || n * laps <= 0) by (nonlinear_arith)
                    requires
                        n >= 1,
                ;
            }
        }
    }
}

/// The items arrive unaltered and in the order sent, whatever the order in which
/// the steps of the two threads fall: what has been received is always the
/// beginning of what was sent, and no slot is filled before its item was taken.
pub proof fn law_items_pass_in_order<T>(trace: Seq<Passing<T>>, i: int)
    requires
        is_trace(trace, passing_step()),
        0 <= i < trace.len(),
        trace[0].initial(),
    ensures
        trace[i].orderly(),
        trace[i].received == trace[i].sent.take(trace[i].head),
    decreases i,
{
    if i == 0 {
        assert(trace[0].received =~= trace[0].sent.take(0));
    } else {
        law_items_pass_in_order(trace, i - 1);
        let s = trace[i - 1];
        let t = trace[i - 1 + 1];
        assert(passing_step()(s, t));
        if pushes(s, t) && s.producer is FoundRoom {
            let item = t.sent.last();
            lemma_fill_spares_waiting_items(s, item);
            assert(t.received =~= t.sent.take(t.head));
        } else if pops(s, t) && s.consumer is Took {
            assert(t.received =~= t.sent.take(t.head));
        }
    }
}

} // verus!
