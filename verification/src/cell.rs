//! `Cell`: the unified single-writer primitive, and the causal chain behind it.
//!
//! A cell is two machine words. It is empty, or holds an inline value and its
//! epoch, or refers to the newest block of a chain; a block carries the epoch it
//! was published with, so the head block's epoch is the cell's.
//!
//! `write` replaces: an inline type goes into the head, any other type into a
//! fresh block without history. `append` extends: it always makes a block, whose
//! `prev` edge is the block that was the head. Blocks are immutable and are never
//! freed, so a reader may keep a reference to one across any number of writes.
use crate::epoch::{missed_since, ReadResult, WriteResult};
use crate::payload::{decode_inline, tag, Payload, INLINE_TAG};
use vstd::prelude::*;

verus! {

/// Heap unit of the immutable causal chain.
pub struct Block<'a, T> {
    pub value: T,
    /// Backward causal edge. `None` for the first block.
    pub prev: Option<&'a Block<'a, T>>,
    /// Epoch at time of creation.
    pub epoch: u64,
}

/// What one block of a chain records.
pub struct Entry<T> {
    pub value: T,
    pub epoch: u64,
}

impl<'a, T> Block<'a, T> {
    /// The chain that starts at this block, newest first.
    pub open spec fn chain(self) -> Seq<Entry<T>>
        decreases self,
    {
        seq![Entry { value: self.value, epoch: self.epoch }] + chain_from(self.prev)
    }

    /// Place a block on the heap for good.
    pub fn allocate(value: T, prev: Option<&'a Block<'a, T>>, epoch: u64) -> (block: &'a Block<
        'a,
        T,
    >)
        ensures
            *block == (Block { value, prev, epoch }),
    {
        leak(Box::new(Block { value, prev, epoch }))
    }
}

/// The chain that starts at an optional block.
pub open spec fn chain_from<T>(head: Option<&Block<T>>) -> Seq<Entry<T>>
    decreases head,
{
    match head {
        Some(block) => block.chain(),
        None => Seq::empty(),
    }
}

/// `Box::leak`: hands out a reference to what the box holds, which is then never
/// freed.
#[verifier::external_body]
fn leak<'a, T>(block: Box<Block<'a, T>>) -> (leaked: &'a Block<'a, T>)
    ensures
        *leaked == *block,
{
    Box::leak(block)
}

/// What a cell holds.
#[verifier::ext_equal]
pub enum Content<T> {
    /// Never written.
    Empty,
    /// A value carried in the head itself.
    Inline(T),
    /// A chain of blocks, newest first.
    Chain(Seq<Entry<T>>),
}

/// The state of a cell.
#[verifier::ext_equal]
pub struct CellView<T> {
    pub epoch: u64,
    pub content: Content<T>,
}

impl<T> CellView<T> {
    /// Whether a read finds a value: something was written, under whatever epoch.
    pub open spec fn readable(self) -> bool {
        self.content !is Empty
    }

    /// A cell that was never written is at epoch 0, and the newest block of a
    /// chain carries the cell's epoch.
    pub open spec fn valid(self) -> bool {
        &&& self.epoch > 0 ==> self.content !is Empty
        &&& self.content matches Content::Chain(entries) ==> entries.len() > 0
            && entries[0].epoch == self.epoch
    }

    /// The value a read finds.
    pub open spec fn current(self) -> T
        recommends
            self.readable(),
    {
        match self.content {
            Content::Inline(value) => value,
            Content::Chain(entries) => entries[0].value,
            Content::Empty => arbitrary(),
        }
    }

    /// The causal history, newest first: the blocks reachable from the head.
    pub open spec fn history(self) -> Seq<Entry<T>> {
        match self.content {
            Content::Chain(entries) => entries,
            _ => Seq::empty(),
        }
    }

    /// The state after `value` has been appended at `epoch`.
    pub open spec fn appended(self, value: T, epoch: u64) -> Self {
        CellView {
            epoch,
            content: Content::Chain(seq![Entry { value, epoch }] + self.history()),
        }
    }
}

impl<T: Payload> CellView<T> {
    /// The state after `value` has replaced whatever was there, at `epoch`.
    pub open spec fn wrote(self, value: T, epoch: u64) -> Self {
        CellView {
            epoch,
            content: if T::inline() {
                Content::Inline(value)
            } else {
                Content::Chain(seq![Entry { value, epoch }])
            },
        }
    }
}

enum Head<'a, T> {
    Empty,
    Inline { word: u32, epoch: u64 },
    Chain { block: &'a Block<'a, T> },
}

/// The unified primitive: a current value, a write counter and, for appended
/// values, their history.
pub struct Cell<'a, T> {
    head: Head<'a, T>,
}

impl<'a, T: Payload> View for Cell<'a, T> {
    type V = CellView<T>;

    closed spec fn view(&self) -> CellView<T> {
        match self.head {
            Head::Empty => CellView { epoch: 0, content: Content::Empty },
            Head::Inline { word, epoch } => CellView {
                epoch,
                content: Content::Inline(choose|value: T| value.word() == word),
            },
            Head::Chain { block } => CellView {
                epoch: block.epoch,
                content: Content::Chain(block.chain()),
            },
        }
    }
}

impl<'a, T: Payload> Cell<'a, T> {
    /// The state is valid and well stored.
    pub open spec fn wf(self) -> bool {
        self@.valid() && self.well_stored()
    }

    /// An inline head holds the word of some value of an inline type.
    pub closed spec fn well_stored(self) -> bool {
        match self.head {
            Head::Inline { word, .. } => T::inline() && exists|value: T| value.word() == word,
            _ => true,
        }
    }

    /// An empty cell at epoch 0.
    pub fn new() -> (cell: Self)
        ensures
            cell.wf(),
            cell@ == (CellView { epoch: 0, content: Content::<T>::Empty }),
    {
        Cell { head: Head::Empty }
    }

    /// Mutable replace. An inline value goes into the head without allocation;
    /// any other value goes into a fresh block that has no `prev`.
    pub fn write(&mut self, value: T) -> (result: WriteResult)
        requires
            old(self).wf(),
            old(self)@.epoch < u64::MAX,
        ensures
            final(self).wf(),
            result.epoch == old(self)@.epoch + 1,
            final(self)@ == old(self)@.wrote(value, result.epoch),
    {
        let epoch = self.epoch() + 1;
        self.write_with_epoch(value, epoch)
    }

    /// Immutable extend. Always makes a block; its `prev` is the block that was
    /// the head, if the head was a block.
    pub fn append(&mut self, value: T) -> (result: WriteResult)
        requires
            old(self).wf(),
            old(self)@.epoch < u64::MAX,
        ensures
            final(self).wf(),
            result.epoch == old(self)@.epoch + 1,
            final(self)@ == old(self)@.appended(value, result.epoch),
    {
        let epoch = self.epoch() + 1;
        self.append_with_epoch(value, epoch)
    }

    /// `append` at an epoch of the caller's choosing.
    pub fn append_with_epoch(&mut self, value: T, epoch: u64) -> (result: WriteResult)
        requires
            old(self).wf(),
        ensures
            final(self).wf(),
            result.epoch == epoch,
            final(self)@ == old(self)@.appended(value, epoch),
    {
        let prev = self.head_ptr();
        let block = Block::allocate(value, prev, epoch);
        self.head = Head::Chain { block };
        WriteResult { epoch }
    }

    /// `write` at an epoch of the caller's choosing.
    pub fn write_with_epoch(&mut self, value: T, epoch: u64) -> (result: WriteResult)
        requires
            old(self).wf(),
        ensures
            final(self).wf(),
            result.epoch == epoch,
            final(self)@ == old(self)@.wrote(value, epoch),
    {
        match value.to_word() {
            Some(word) => {
                proof {
                    assert(value.word() == word);
                    T::word_injective(value, choose|x: T| x.word() == word);
                }
                self.head = Head::Inline { word, epoch };
            },
            None => {
                let block = Block::allocate(value, None, epoch);
                self.head = Head::Chain { block };
            },
        }
        WriteResult { epoch }
    }

    /// Read the current value. `last_epoch` is the epoch the caller saw last (0
    /// on a first read); the result counts the writes missed since. A value in a
    /// block is cloned out.
    pub fn read(&self, last_epoch: u64) -> (result: ReadResult<T>) where T: Clone
        requires
            self.wf(),
            self@.readable() ==> last_epoch < u64::MAX,
        ensures
            match result {
                ReadResult::Empty => !self@.readable(),
                ReadResult::Value { value, epoch, missed } => {
                    &&& self@.readable()
                    &&& epoch == self@.epoch
                    &&& missed == crate::epoch::missed_between(epoch as int, last_epoch as int)
                    &&& match self@.content {
                        Content::Inline(held) => value == held,
                        _ => vstd::pervasive::strictly_cloned(self@.current(), value),
                    }
                },
            },
    {
        let epoch = self.epoch();
        let value = match self.head {
            Head::Empty => {
                return ReadResult::Empty;
            },
            Head::Inline { word, .. } => {
                let ghost held = choose|x: T| x.word() == word;
                proof {
                    T::word_injective(held, held);
                    vstd::arithmetic::div_mod::lemma_small_mod(word as nat, T::span() as nat);
                }
                match T::from_word(word) {
                    Some(value) => {
                        proof {
                            T::word_injective(value, held);
                        }
                        value
                    },
                    None => {
                        return ReadResult::Empty;
                    },
                }
            },
            Head::Chain { block } => block.value.clone(),
        };
        let missed = missed_since(epoch, last_epoch);
        ReadResult::Value { value, epoch, missed }
    }

    /// Traverse the immutable causal history, newest first. Only meaningful
    /// after `append`.
    pub fn chain(&self) -> (iter: ChainIter<'a, T>)
        requires
            self.wf(),
        ensures
            iter@ == self@.history(),
    {
        ChainIter::new(self.head_ptr())
    }

    /// Current epoch. Use to check write velocity.
    pub fn epoch(&self) -> (epoch: u64)
        ensures
            epoch == self@.epoch,
    {
        match self.head {
            Head::Empty => 0,
            Head::Inline { epoch, .. } => epoch,
            Head::Chain { block } => block.epoch,
        }
    }

    /// The newest block. `None` if the cell is empty or holds an inline value.
    pub fn head_ptr(&self) -> (head: Option<&'a Block<'a, T>>)
        ensures
            head is Some <==> self@.content is Chain,
            head matches Some(block) ==> block.epoch == self@.epoch,
            chain_from(head) == self@.history(),
    {
        match self.head {
            Head::Chain { block } => Some(block),
            _ => None,
        }
    }

    /// The tagged head word of an inline value. `None` if the cell is empty or
    /// refers to a block.
    pub fn inline_bits(&self) -> (bits: Option<u64>)
        requires
            self.wf(),
        ensures
            bits == (match self@.content {
                Content::Inline(value) => Some(crate::payload::tagged(value.word())),
                _ => None,
            }),
    {
        match self.head {
            Head::Inline { word, .. } => Some(tag(word)),
            _ => None,
        }
    }
}

impl<'a, T: Payload> Default for Cell<'a, T> {
    fn default() -> (cell: Self)
        ensures
            cell.wf(),
            cell@ == (CellView { epoch: 0, content: Content::<T>::Empty }),
    {
        Cell::new()
    }
}

/// Whether `result` is what an epoch and a head word amount to that were loaded one
/// after the other.
pub open spec fn loaded<T: Payload>(
    epoch: u64,
    bits: u64,
    last_epoch: u64,
    result: ReadResult<T>,
) -> bool {
    match result {
        ReadResult::Empty => epoch == 0 || bits % 2 == 0 || crate::payload::held_by(
            bits,
            None::<T>,
        ),
        ReadResult::Value { value, epoch: at, missed } => {
            &&& epoch > 0
            &&& bits % 2 == 1
            &&& crate::payload::held_by(bits, Some(value))
            &&& at == epoch
            &&& missed == crate::epoch::missed_between(epoch as int, last_epoch as int)
        },
    }
}

/// What a reader makes of a head word and an epoch that it has loaded one after the
/// other: the inline value, unless no write has completed or the head holds none.
pub fn read_loaded<T: Payload>(epoch: u64, bits: u64, last_epoch: u64) -> (result: ReadResult<T>)
    requires
        epoch > 0 && bits % 2 == 1 ==> last_epoch < u64::MAX,
    ensures
        loaded(epoch, bits, last_epoch, result),
{
    assert((bits & 1 == 0) == (bits % 2 == 0)) by (bit_vector);
    if epoch == 0 || bits & INLINE_TAG == 0 {
        return ReadResult::Empty;
    }
    match decode_inline(bits) {
        Some(value) => {
            let missed = missed_since(epoch, last_epoch);
            ReadResult::Value { value, epoch, missed }
        },
        None => ReadResult::Empty,
    }
}

/// Causal chain traversal, newest to oldest.
pub struct ChainIter<'a, T> {
    current: Option<&'a Block<'a, T>>,
}

impl<'a, T> View for ChainIter<'a, T> {
    type V = Seq<Entry<T>>;

    /// The entries still to come.
    closed spec fn view(&self) -> Seq<Entry<T>> {
        chain_from(self.current)
    }
}

impl<'a, T> ChainIter<'a, T> {
    /// Start at `head`.
    pub fn new(head: Option<&'a Block<'a, T>>) -> (iter: Self)
        ensures
            iter@ == chain_from(head),
    {
        ChainIter { current: head }
    }

    /// A clone of the next value towards the oldest; `None` past the end.
    pub fn next(&mut self) -> (item: Option<T>) where T: Clone
        ensures
            match item {
                Some(value) => {
                    &&& old(self)@.len() > 0
                    &&& vstd::pervasive::strictly_cloned(old(self)@[0].value, value)
                    &&& final(self)@ == old(self)@.drop_first()
                },
                None => old(self)@.len() == 0 && final(self)@ == old(self)@,
            },
    {
        match self.current {
            Some(block) => {
                let value = block.value.clone();
                self.current = block.prev;
                Some(value)
            },
            None => None,
        }
    }

    /// Clones of all remaining values, in order.
    pub fn collect(self) -> (values: Vec<T>) where T: Clone
        ensures
            values@.len() == self@.len(),
            forall|i: int|
                0 <= i < values@.len() ==> vstd::pervasive::strictly_cloned(
                    self@[i].value,
                    #[trigger] values@[i],
                ),
    {
        let mut rest = self;
        let mut values: Vec<T> = Vec::new();
        loop
            invariant
                rest@ == self@.skip(values@.len() as int),
                values@.len() <= self@.len(),
                forall|i: int|
                    0 <= i < values@.len() ==> vstd::pervasive::strictly_cloned(
                        self@[i].value,
                        #[trigger] values@[i],
                    ),
            decreases rest@.len(),
        {
            match rest.next() {
                Some(value) => values.push(value),
                None => {
                    return values;
                },
            }
        }
    }
}

/// One publication by a cell's writer.
pub enum Publication<T> {
    Write(T),
    Append(T),
}

impl<T> Publication<T> {
    /// The value published.
    pub open spec fn value(self) -> T {
        match self {
            Publication::Write(value) => value,
            Publication::Append(value) => value,
        }
    }
}

impl<T: Payload> CellView<T> {
    /// The state after one `write` or `append`.
    pub open spec fn published(self, publication: Publication<T>) -> Self {
        let epoch = (self.epoch + 1) as u64;
        match publication {
            Publication::Write(value) => self.wrote(value, epoch),
            Publication::Append(value) => self.appended(value, epoch),
        }
    }

    /// The state after a run of publications.
    pub open spec fn after(self, run: Seq<Publication<T>>) -> Self
        decreases run.len(),
    {
        if run.len() == 0 {
            self
        } else {
            self.after(run.drop_last()).published(run.last())
        }
    }
}

/// Every write and every append raises the epoch by exactly one.
pub proof fn law_epoch_counts_publications<T: Payload>(
    start: CellView<T>,
    run: Seq<Publication<T>>,
)
    requires
        start.epoch + run.len() <= u64::MAX,
    ensures
        start.after(run).epoch == start.epoch + run.len(),
    decreases run.len(),
{
    if run.len() > 0 {
        law_epoch_counts_publications(start, run.drop_last());
    }
}

/// A read after any non-empty run of publications finds the last value
/// published, at the epoch of that publication.
pub proof fn law_read_finds_latest<T: Payload>(start: CellView<T>, run: Seq<Publication<T>>)
    requires
        start.epoch + run.len() <= u64::MAX,
        run.len() > 0,
    ensures
        start.after(run).readable(),
        start.after(run).current() == run.last().value(),
        start.after(run).epoch == start.epoch + run.len(),
{
    law_epoch_counts_publications(start, run);
}

/// A reader that saw the state after the first `seen` publications and reads
/// again after the whole run has missed all publications between the two but
/// the one it now sees.
pub proof fn law_missed_counts_publications<T: Payload>(
    start: CellView<T>,
    run: Seq<Publication<T>>,
    seen: int,
)
    requires
        start.epoch + run.len() <= u64::MAX,
        0 <= seen < run.len(),
        start.epoch + seen > 0,
    ensures
        crate::epoch::missed_between(
            start.after(run).epoch as int,
            start.after(run.take(seen)).epoch as int,
        ) == run.len() - seen - 1,
{
    law_epoch_counts_publications(start, run);
    law_epoch_counts_publications(start, run.take(seen));
}

/// Appending to an empty cell builds a chain that holds every value, newest
/// first, each under the epoch of its append.
pub proof fn law_appends_build_the_chain<T: Payload>(
    start: CellView<T>,
    run: Seq<Publication<T>>,
    i: int,
)
    requires
        start.epoch + run.len() <= u64::MAX,
        start.history().len() == 0,
        forall|k: int| 0 <= k < run.len() ==> #[trigger] run[k] is Append,
        0 <= i < run.len(),
    ensures
        start.after(run).history().len() == run.len(),
        start.after(run).history()[i].value == run[run.len() - 1 - i].value(),
        start.after(run).history()[i].epoch == start.epoch + run.len() - i,
    decreases run.len(),
{
    let prefix = run.drop_last();
    law_epoch_counts_publications(start, prefix);
    assert(run.last() is Append);
    assert(forall|k: int| 0 <= k < prefix.len() ==> prefix[k] == run[k]);
    if prefix.len() > 0 {
        law_appends_build_the_chain(start, prefix, if i > 0 { i - 1 } else { 0 });
    }
}

/// Appends never disturb what is already in the chain: the history that a
/// snapshot was taken of stays there, under the newer entries.
pub proof fn law_snapshot_survives_appends<T: Payload>(
    start: CellView<T>,
    run: Seq<Publication<T>>,
)
    requires
        forall|k: int| 0 <= k < run.len() ==> #[trigger] run[k] is Append,
    ensures
        start.after(run).history().len() == run.len() + start.history().len(),
        start.after(run).history().skip(run.len() as int) == start.history(),
    decreases run.len(),
{
    if run.len() == 0 {
        assert(start.history().skip(0) =~= start.history());
    } else {
        let prefix = run.drop_last();
        assert(run.last() is Append);
        assert(forall|k: int| 0 <= k < prefix.len() ==> prefix[k] == run[k]);
        law_snapshot_survives_appends(start, prefix);
        assert(start.after(run).history().skip(run.len() as int) =~= start.after(
            prefix,
        ).history().skip(prefix.len() as int));
    }
}

/// Writes and appends keep a cell valid.
pub proof fn law_publications_keep_validity<T: Payload>(start: CellView<T>, value: T, epoch: u64)
    ensures
        start.wrote(value, epoch).valid(),
        start.appended(value, epoch).valid(),
        start.wrote(value, epoch).readable(),
        start.appended(value, epoch).readable(),
{
}

/// A publication at a new epoch puts a new block at the head: neither a write nor an
/// append hands out the block that was there before.
pub proof fn law_publication_replaces_the_head<T: Payload>(
    start: CellView<T>,
    value: T,
    epoch: u64,
)
    requires
        start.valid(),
        start.content is Chain,
        epoch != start.epoch,
    ensures
        start.appended(value, epoch).history()[0] != start.history()[0],
        !T::inline() ==> start.wrote(value, epoch).history()[0] != start.history()[0],
{
}

/// A valid cell at an epoch above 0 reads as a value, so the missed count of a read
/// is fixed for every baseline; it is 0 for one from the future.
pub proof fn law_written_cell_is_readable<T>(cell: CellView<T>, last: int)
    requires
        cell.valid(),
        cell.epoch > 0,
        last >= 0,
    ensures
        cell.readable(),
        crate::epoch::missed_between(cell.epoch as int, last) == (if last == 0 || last
            >= cell.epoch {
            0
        } else {
            cell.epoch - last - 1
        }),
{
}

/// A write forgets the history: an inline value has none, any other value is
/// the only entry of its own.
pub proof fn law_write_cuts_the_chain<T: Payload>(start: CellView<T>, value: T, epoch: u64)
    ensures
        T::inline() ==> start.wrote(value, epoch).history().len() == 0,
        !T::inline() ==> start.wrote(value, epoch).history() == seq![Entry { value, epoch }],
{
}

/// An append after an inline value starts a chain of its own.
pub proof fn law_append_after_inline_starts_afresh<T>(start: CellView<T>, value: T, epoch: u64)
    requires
        start.content is Inline,
    ensures
        start.appended(value, epoch).history() == seq![Entry { value, epoch }],
{
}

/// What a read finds after a write, whatever was there before and whatever the epoch:
/// the value written, under its epoch. The cell has no history but the value itself,
/// and none at all if the value is inline.
pub proof fn law_write_then_read<T: Payload>(start: CellView<T>, value: T, epoch: u64)
    ensures
        ({
            let after = start.wrote(value, epoch);
            &&& after.readable()
            &&& after.current() == value
            &&& after.epoch == epoch
            &&& T::inline() ==> after.content == Content::Inline(value)
            &&& T::inline() ==> after.history().len() == 0
            &&& !T::inline() ==> after.content is Chain
            &&& !T::inline() ==> after.history().len() == 1
            &&& !T::inline() ==> after.history()[0].value == value
            &&& !T::inline() ==> after.history()[0].epoch == epoch
        }),
{
}

/// What a read finds after an append, and where the history went: the new value is in
/// front of everything that was there, in the same order and under the same epochs.
pub proof fn law_append_then_read<T>(start: CellView<T>, value: T, epoch: u64)
    ensures
        ({
            let after = start.appended(value, epoch);
            &&& after.readable()
            &&& after.current() == value
            &&& after.epoch == epoch
            &&& after.content is Chain
            &&& after.history().len() == start.history().len() + 1
            &&& after.history()[0].value == value
            &&& after.history()[0].epoch == epoch
            &&& forall|i: int|
                0 <= i < start.history().len() ==> (#[trigger] start.history()[i])
                    == after.history()[i + 1]
        }),
{
}

/// A cell reads as empty exactly if nothing was ever stored in it, and what it reads as
/// is what it holds: the inline value, or the newest entry of its chain.
pub proof fn law_read_finds_what_is_held<T>(cell: CellView<T>)
    ensures
        cell.readable() <==> cell.content != Content::<T>::Empty,
        cell.content matches Content::Inline(value) ==> cell.current() == value
            && cell.history().len() == 0,
        cell.content matches Content::Chain(entries) ==> cell.current() == entries[0].value
            && cell.history() == entries,
{
}

/// The chain of a block is the block itself, followed by the chain of its `prev`.
pub proof fn law_chain_follows_prev<T>(block: &Block<T>)
    ensures
        block.chain().len() >= 1,
        block.chain()[0].value == block.value,
        block.chain()[0].epoch == block.epoch,
        block.prev is None ==> block.chain().len() == 1,
        block.prev matches Some(prev) ==> block.chain().len() == prev.chain().len() + 1,
        block.prev matches Some(prev) ==> forall|i: int|
            0 <= i < prev.chain().len() ==> block.chain()[i + 1] == #[trigger] prev.chain()[i],
        chain_from(Some(block)) == block.chain(),
        chain_from(None::<&Block<T>>).len() == 0,
{
}

/// Two loaded words amount to one result: the value whose bytes the head word holds, under
/// the epoch loaded, with the skipped epochs counted. They amount to nothing exactly if no
/// write has completed, or the head is not inline, or its bytes are no value of the type.
pub proof fn law_loaded_words_give_the_value<T: Payload>(
    epoch: u64,
    bits: u64,
    last_epoch: u64,
    value: T,
    result: ReadResult<T>,
)
    requires
        loaded(epoch, bits, last_epoch, result),
    ensures
        epoch == 0 || bits % 2 == 0 ==> result is Empty,
        result matches ReadResult::Value { epoch: at, .. } ==> at == epoch && T::inline(),
        result matches ReadResult::Value { missed, .. } ==> missed
            == crate::epoch::missed_between(epoch as int, last_epoch as int),
        T::inline() && epoch > 0 && bits % 2 == 1 && value.word() == ((bits / 2)
            % 0x1_0000_0000) % T::span() ==> result is Value && result->value == value,
        (forall|x: T| x.word() != ((bits / 2) % 0x1_0000_0000) % T::span()) ==> result is Empty,
        !T::inline() ==> result is Empty,
{
    if epoch > 0 && bits % 2 == 1 {
        let found = match result {
            ReadResult::Empty => None,
            ReadResult::Value { value: v, .. } => Some(v),
        };
        crate::payload::law_low_bytes_decide(bits, found, value);
    }
}

} // verus!
