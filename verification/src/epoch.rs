//! Results of writes and reads, and the count of writes a reader has missed.
use vstd::prelude::*;

verus! {

/// Returned by every write. Carries the epoch at time of write.
#[derive(Debug, Clone, Copy, PartialEq)]
pub struct WriteResult {
    /// Epoch at time of this write. Pass to the next read as `last_epoch`
    /// to detect how many writes you missed.
    pub epoch: u64,
}

/// Returned by every read.
#[derive(Debug, PartialEq)]
pub enum ReadResult<T> {
    /// Cell has never been written.
    Empty,
    /// Successfully read a value.
    Value {
        value: T,
        /// Epoch at time of this read.
        epoch: u64,
        /// Writes the caller missed since `last_epoch`: 0 means fully current.
        /// The caller decides whether to throttle the writer.
        missed: u64,
    },
}

impl<T> ReadResult<T> {
    /// The value read, if there was one.
    pub fn value(self) -> (r: Option<T>)
        ensures
            r == (match self {
                ReadResult::Value { value, .. } => Some(value),
                ReadResult::Empty => None,
            }),
    {
        match self {
            ReadResult::Value { value, .. } => Some(value),
            ReadResult::Empty => None,
        }
    }

    /// The epoch of the value read; 0 when the cell was empty.
    pub fn epoch(&self) -> (r: u64)
        ensures
            r == (match *self {
                ReadResult::Value { epoch, .. } => epoch,
                ReadResult::Empty => 0,
            }),
    {
        match self {
            ReadResult::Value { epoch, .. } => *epoch,
            ReadResult::Empty => 0,
        }
    }

    /// The number of writes missed; 0 when the cell was empty.
    pub fn missed(&self) -> (r: u64)
        ensures
            r == (match *self {
                ReadResult::Value { missed, .. } => missed,
                ReadResult::Empty => 0,
            }),
    {
        match self {
            ReadResult::Value { missed, .. } => *missed,
            ReadResult::Empty => 0,
        }
    }
}

/// Writes that lie strictly between the one a reader saw last and the one it
/// sees now. `last == 0` means the reader has no baseline, so nothing was missed.
pub open spec fn missed_between(epoch: int, last: int) -> int {
    if last == 0 || epoch <= last {
        0
    } else {
        epoch - last - 1
    }
}

/// The missed-write count of a reader that last saw `last_epoch` and now sees
/// `epoch`.
pub fn missed_since(epoch: u64, last_epoch: u64) -> (missed: u64)
    requires
        last_epoch < u64::MAX,
    ensures
        missed == missed_between(epoch as int, last_epoch as int),
{
    if last_epoch == 0 {
        0
    } else {
        epoch.saturating_sub(last_epoch + 1)
    }
}

/// The missed count is the number of epochs strictly between the last one seen
/// and the current one, whenever there is a baseline to count from.
pub proof fn law_missed_counts_skipped_epochs(epoch: int, last: int)
    requires
        0 < last,
    ensures
        missed_between(epoch, last) == vstd::set_lib::set_int_range(last + 1, epoch).len(),
{
    if last + 1 <= epoch {
        vstd::set_lib::lemma_int_range(last + 1, epoch);
    } else {
        assert(vstd::set_lib::set_int_range(last + 1, epoch) =~= Set::empty());
    }
}

/// A reader without a baseline has missed nothing, and neither has one that
/// already saw the current epoch or the one just before it.
pub proof fn law_current_reader_missed_nothing(epoch: int, last: int)
    requires
        last == 0 || epoch - 1 <= last,
    ensures
        missed_between(epoch, last) == 0,
{
}

} // verus!
