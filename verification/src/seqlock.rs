//! The control word of a seqlock, the steps a reader takes on it, and `SeqCell`.
//!
//! Readers cannot consult a mode and a sequence counter in two words without a
//! race, so both live in one:
//!
//! ```text
//!   bit  0      MODE         0 = cold (slot), 1 = hot (block head)
//!   bit  1      IN-PROGRESS  set while a write is under way
//!   bits 63:2   EPOCH        completed-write count
//! ```
//!
//! A writer stores the in-progress word, changes the slot, then stores the
//! completed word. A reader loads the word, copies the slot and loads the word
//! again; what it does after each load is decided by the step functions here.
use crate::epoch::{missed_since, ReadResult, WriteResult};
use vstd::prelude::*;

verus! {

/// Bit 0 of the control word: 0 = cold, 1 = hot.
pub const MODE_HOT: u64 = 1;

/// Bit 1 of the control word: a write is under way.
pub const IN_PROGRESS: u64 = 2;

/// The first epoch that no longer fits in a control word.
pub const EPOCH_LIMIT: u64 = 0x4000_0000_0000_0000;

/// The completed-write count of a control word.
pub open spec fn word_epoch(c: u64) -> int {
    c as int / 4
}

/// Whether a control word says that a write is under way.
pub open spec fn word_busy(c: u64) -> bool {
    (c as int / 2) % 2 == 1
}

/// Whether a control word says hot.
pub open spec fn word_hot(c: u64) -> bool {
    c as int % 2 == 1
}

/// Whether no write has begun yet.
pub open spec fn word_fresh(c: u64) -> bool {
    word_epoch(c) == 0 && !word_busy(c)
}

/// The control word with the given fields.
pub open spec fn word(epoch: int, busy: bool, hot: bool) -> int {
    4 * epoch + (if busy {
        2int
    } else {
        0
    }) + (if hot {
        1int
    } else {
        0
    })
}

/// A control word is determined by its three fields.
pub proof fn law_word_fields(c: u64)
    ensures
        word(word_epoch(c), word_busy(c), word_hot(c)) == c,
{
}

/// Completed writes.
pub fn ctrl_epoch(c: u64) -> (epoch: u64)
    ensures
        epoch == word_epoch(c),
        epoch < EPOCH_LIMIT,
{
    assert(c >> 2 == c / 4) by (bit_vector);
    c >> 2
}

/// Whether the mode bit is set.
pub fn ctrl_hot(c: u64) -> (hot: bool)
    ensures
        hot == word_hot(c),
{
    assert((c & 1 != 0) == (c % 2 == 1)) by (bit_vector);
    c & MODE_HOT != 0
}

/// Whether the in-progress bit is set.
pub fn ctrl_in_progress(c: u64) -> (busy: bool)
    ensures
        busy == word_busy(c),
{
    assert((c & 2 != 0) == ((c / 2) % 2 == 1)) by (bit_vector);
    c & IN_PROGRESS != 0
}

/// Whether no write has begun yet.
pub fn ctrl_fresh(c: u64) -> (fresh: bool)
    ensures
        fresh == word_fresh(c),
{
    assert((c >> 1 == 0) == (c / 2 == 0)) by (bit_vector);
    c >> 1 == 0
}

/// The word to store before the slot is changed.
pub fn begin_word(c: u64, hot: bool) -> (next: u64)
    requires
        !word_busy(c),
        word_epoch(c) + 1 < EPOCH_LIMIT,
    ensures
        next == word(word_epoch(c), true, hot),
        word_busy(next),
        word_hot(next) == hot,
        word_epoch(next) == word_epoch(c),
{
    let cnt = c >> 1;
    assert(cnt == c / 2) by (bit_vector)
        requires
            cnt == c >> 1,
    ;
    let mode: u64 = if hot {
        MODE_HOT
    } else {
        0
    };
    let up = cnt + 1;
    assert((up << 1) | mode == 2 * up + mode) by (bit_vector)
        requires
            up <= 0x7fff_ffff_ffff_ffff,
            mode <= 1,
    ;
    (up << 1) | mode
}

/// The word to store once the slot has been changed.
pub fn commit_word(c: u64, hot: bool) -> (next: u64)
    requires
        !word_busy(c),
        word_epoch(c) + 1 < EPOCH_LIMIT,
    ensures
        next == word(word_epoch(c) + 1, false, hot),
        !word_busy(next),
        word_hot(next) == hot,
        word_epoch(next) == word_epoch(c) + 1,
{
    let cnt = c >> 1;
    assert(cnt == c / 2) by (bit_vector)
        requires
            cnt == c >> 1,
    ;
    let mode: u64 = if hot {
        MODE_HOT
    } else {
        0
    };
    let up = cnt + 2;
    assert((up << 1) | mode == 2 * up + mode) by (bit_vector)
        requires
            up <= 0x7fff_ffff_ffff_ffff,
            mode <= 1,
    ;
    (up << 1) | mode
}

/// What an owned reader does after its first load of the control word.
#[derive(Debug, Clone, Copy, PartialEq, Eq, Structural)]
pub enum OwnedStep {
    /// Nothing was ever written: the read is over.
    Empty,
    /// A write is under way: yield and start over.
    Restart,
    /// Copy the slot, then load the control word again.
    Copy,
}

/// The owned reader's first decision.
pub fn owned_first(c0: u64) -> (step: OwnedStep)
    ensures
        step == (if word_fresh(c0) {
            OwnedStep::Empty
        } else if word_busy(c0) {
            OwnedStep::Restart
        } else {
            OwnedStep::Copy
        }),
{
    if ctrl_fresh(c0) {
        OwnedStep::Empty
    } else if ctrl_in_progress(c0) {
        OwnedStep::Restart
    } else {
        OwnedStep::Copy
    }
}

/// The owned reader's second decision: the copy counts exactly when the word is
/// the one it was before. Anything that changed the word in between, a write or
/// a change of mode, makes the reader start over.
pub fn owned_confirms(c0: u64, c1: u64) -> (ok: bool)
    ensures
        ok == (c1 == c0),
{
    c1 == c0
}

/// What a pinned reader does after its first load of the control word.
#[derive(Debug, Clone, Copy, PartialEq, Eq, Structural)]
pub enum PinnedStep {
    /// Nothing was ever written: the read is over.
    Empty,
    /// A write is under way: yield and start over. The head is not served during
    /// a write, since the escalating write has not published its block yet.
    Restart,
    /// Pin the head block, then load the control word again.
    PinHead,
    /// Copy the slot, then load the control word again.
    Copy,
}

/// The pinned reader's first decision.
pub fn pinned_first(c0: u64) -> (step: PinnedStep)
    ensures
        step == (if word_fresh(c0) {
            PinnedStep::Empty
        } else if word_busy(c0) {
            PinnedStep::Restart
        } else if word_hot(c0) {
            PinnedStep::PinHead
        } else {
            PinnedStep::Copy
        }),
{
    if ctrl_fresh(c0) {
        PinnedStep::Empty
    } else if ctrl_in_progress(c0) {
        PinnedStep::Restart
    } else if ctrl_hot(c0) {
        PinnedStep::PinHead
    } else {
        PinnedStep::Copy
    }
}

/// The pinned reader's second decision. A pin taken on a hot cell counts while
/// the cell is still hot (the pinned block is protected whatever was written in
/// between); a copy counts exactly when the word is the one it was before.
pub fn pinned_confirms(c0: u64, c1: u64) -> (ok: bool)
    ensures
        ok == (if word_hot(c0) {
            word_hot(c1)
        } else {
            c1 == c0
        }),
{
    if ctrl_hot(c0) {
        ctrl_hot(c1)
    } else {
        c1 == c0
    }
}

/// The state of a `SeqCell`.
#[verifier::ext_equal]
pub struct SeqView<T> {
    pub epoch: nat,
    pub value: Option<T>,
}

/// Latest-value publication of a `Copy` type without allocation: the value lives
/// in the cell, bracketed by the control word.
pub struct SeqCell<T: Copy> {
    ctrl: u64,
    slot: Option<T>,
}

impl<T: Copy> View for SeqCell<T> {
    type V = SeqView<T>;

    closed spec fn view(&self) -> SeqView<T> {
        SeqView { epoch: word_epoch(self.ctrl) as nat, value: self.slot }
    }
}

impl<T: Copy> SeqCell<T> {
    /// No write is under way, and the slot is filled once a write has completed.
    pub closed spec fn wf(self) -> bool {
        &&& !word_busy(self.ctrl)
        &&& !word_hot(self.ctrl)
        &&& self.slot is Some <==> word_epoch(self.ctrl) > 0
    }

    /// An empty cell at epoch 0.
    pub fn new() -> (cell: Self)
        ensures
            cell.wf(),
            cell@ == (SeqView { epoch: 0, value: None::<T> }),
    {
        SeqCell { ctrl: 0, slot: None }
    }

    /// Publish a value: in-progress word, slot, completed word.
    pub fn write(&mut self, value: T) -> (result: WriteResult)
        requires
            old(self).wf(),
            old(self)@.epoch + 1 < EPOCH_LIMIT,
        ensures
            final(self).wf(),
            final(self)@ == (SeqView { epoch: old(self)@.epoch + 1, value: Some(value) }),
            result.epoch == final(self)@.epoch,
    {
        let c = self.ctrl;
        self.ctrl = begin_word(c, false);
        self.slot = Some(value);
        self.ctrl = commit_word(c, false);
        WriteResult { epoch: ctrl_epoch(self.ctrl) }
    }

    /// Copy the value out, with the writes missed since `last_epoch`.
    pub fn read(&self, last_epoch: u64) -> (result: ReadResult<T>)
        requires
            self.wf(),
            self@.epoch > 0 ==> last_epoch < u64::MAX,
        ensures
            match result {
                ReadResult::Empty => self@.epoch == 0,
                ReadResult::Value { value, epoch, missed } => {
                    &&& self@.value == Some(value)
                    &&& epoch == self@.epoch
                    &&& epoch > 0
                    &&& missed == crate::epoch::missed_between(epoch as int, last_epoch as int)
                },
            },
    {
        // No write overlaps a shared borrow, so the first pass is confirmed.
        loop
            invariant
                self.wf(),
                self@.epoch > 0 ==> last_epoch < u64::MAX,
            decreases 0nat,
        {
            let c0 = self.ctrl;
            match owned_first(c0) {
                OwnedStep::Empty => {
                    return ReadResult::Empty;
                },
                OwnedStep::Restart => {
                    assert(false);
                },
                OwnedStep::Copy => {
                    let copy = self.slot;
                    let c1 = self.ctrl;
                    if owned_confirms(c0, c1) {
                        if let Some(value) = copy {
                            let epoch = ctrl_epoch(c0);
                            let missed = missed_since(epoch, last_epoch);
                            return ReadResult::Value { value, epoch, missed };
                        }
                    }
                    assert(false);
                },
            }
        }
    }

    /// Copy the value out without a second look at the control word. Only a
    /// reader that cannot overlap a write may rely on it.
    pub fn read_unprotected(&self) -> (result: ReadResult<T>)
        requires
            self.wf(),
        ensures
            match result {
                ReadResult::Empty => self@.epoch == 0,
                ReadResult::Value { value, epoch, missed } => {
                    &&& self@.value == Some(value)
                    &&& epoch == self@.epoch
                    &&& epoch > 0
                    &&& missed == 0
                },
            },
    {
        match self.slot {
            Some(value) => ReadResult::Value { value, epoch: ctrl_epoch(self.ctrl), missed: 0 },
            None => ReadResult::Empty,
        }
    }

    /// Completed writes.
    pub fn epoch(&self) -> (epoch: u64)
        ensures
            epoch == self@.epoch,
    {
        ctrl_epoch(self.ctrl)
    }
}

impl<T: Copy> Default for SeqCell<T> {
    fn default() -> (cell: Self)
        ensures
            cell.wf(),
            cell@ == (SeqView { epoch: 0, value: None::<T> }),
    {
        SeqCell::new()
    }
}

/// The fields of a control word are its bits: the mode in bit 0, a write under way in
/// bit 1, the completed writes above. A word is fresh while all bits but the mode are 0.
pub proof fn law_fields_are_the_bits(c: u64)
    ensures
        word_hot(c) <==> c & MODE_HOT != 0,
        word_busy(c) <==> c & IN_PROGRESS != 0,
        word_epoch(c) == c >> 2,
        word_fresh(c) <==> c >> 1 == 0,
        MODE_HOT == 1,
        IN_PROGRESS == 2,
{
    assert((c & 1 != 0) == (c % 2 == 1)) by (bit_vector);
    assert((c & 2 != 0) == ((c / 2) % 2 == 1)) by (bit_vector);
    assert(c >> 2 == c / 4) by (bit_vector);
    assert((c >> 1 == 0) == (c / 2 == 0)) by (bit_vector);
}

/// A word that is put together from fields has those fields.
pub proof fn law_word_has_its_fields(epoch: u64, busy: bool, hot: bool)
    requires
        epoch < EPOCH_LIMIT,
    ensures
        0 <= word(epoch as int, busy, hot) <= u64::MAX,
        word_epoch(word(epoch as int, busy, hot) as u64) == epoch,
        word_busy(word(epoch as int, busy, hot) as u64) == busy,
        word_hot(word(epoch as int, busy, hot) as u64) == hot,
        word_fresh(word(epoch as int, busy, hot) as u64) <==> epoch == 0 && !busy,
{
}

} // verus!
