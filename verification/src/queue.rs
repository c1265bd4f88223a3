//! `SpscQueue`: a bounded first-in, first-out queue between one producer and one
//! consumer.
//!
//! Each side owns one position. Positions run through two laps of the slots, so
//! that a full queue (one lap apart) and an empty one (same position) differ.
use vstd::prelude::*;

verus! {

/// The slot of the `k`-th item behind position `head`, with `n` slots.
spec fn slot_of(n: int, head: int, k: int) -> int {
    let p = head + k;
    if p < n {
        p
    } else if p < 2 * n {
        p - n
    } else {
        p - 2 * n
    }
}

/// How far `tail` is ahead of `head`, on two laps of `n` slots.
spec fn distance(n: int, head: int, tail: int) -> int {
    if tail >= head {
        tail - head
    } else {
        tail + 2 * n - head
    }
}

/// Whether a queue of at most `n` items takes another one.
pub open spec fn has_room<T>(items: Seq<T>, n: nat) -> bool {
    items.len() < n
}

/// The items after a `push`: a full queue stays as it is.
pub open spec fn pushed<T>(items: Seq<T>, n: nat, value: T) -> Seq<T> {
    if has_room(items, n) {
        items.push(value)
    } else {
        items
    }
}

/// The items after a `pop`: an empty queue stays as it is.
pub open spec fn popped<T>(items: Seq<T>) -> Seq<T> {
    if items.len() > 0 {
        items.drop_first()
    } else {
        items
    }
}

/// A queue of at most `N` items.
pub struct SpscQueue<T, const N: usize> {
    slots: Vec<Option<T>>,
    /// Where the consumer takes next.
    head: usize,
    /// Where the producer puts next.
    tail: usize,
}

impl<T, const N: usize> View for SpscQueue<T, N> {
    type V = Seq<T>;

    /// The items in the queue, oldest first.
    closed spec fn view(&self) -> Seq<T> {
        Seq::new(
            distance(N as int, self.head as int, self.tail as int) as nat,
            |k: int| self.slots@[slot_of(N as int, self.head as int, k)]->0,
        )
    }
}

impl<T, const N: usize> SpscQueue<T, N> {
    /// The positions lie on the two laps, at most one lap apart, and exactly the
    /// slots between them are filled.
    pub closed spec fn wf(self) -> bool {
        let n = N as int;
        let len = distance(n, self.head as int, self.tail as int);
        &&& 1 <= N
        &&& 2 * N <= usize::MAX
        &&& self.slots@.len() == N
        &&& self.head < 2 * N
        &&& self.tail < 2 * N
        &&& len <= N
        &&& forall|k: int|
            0 <= k < len ==> (#[trigger] self.slots@[slot_of(n, self.head as int, k)]) is Some
    }

    /// An empty queue.
    pub fn new() -> (queue: Self)
        requires
            1 <= N,
            2 * N <= usize::MAX,
        ensures
            queue.wf(),
            queue@ == Seq::<T>::empty(),
    {
        let mut slots: Vec<Option<T>> = Vec::new();
        let mut i: usize = 0;
        while i < N
            invariant
                i <= N,
                slots@.len() == i,
            decreases N - i,
        {
            slots.push(None);
            i = i + 1;
        }
        let queue = SpscQueue { slots, head: 0, tail: 0 };
        assert(queue@ =~= Seq::<T>::empty());
        queue
    }

    /// Items in the queue.
    pub fn len(&self) -> (len: usize)
        requires
            self.wf(),
        ensures
            len == self@.len(),
            len <= N,
    {
        if self.tail >= self.head {
            self.tail - self.head
        } else {
            2 * N - self.head + self.tail
        }
    }

    /// Put an item in, at the producer's end. A full queue hands it back.
    pub fn push(&mut self, value: T) -> (result: Result<(), T>)
        requires
            old(self).wf(),
        ensures
            final(self).wf(),
            final(self)@ == pushed(old(self)@, N as nat, value),
            match result {
                Ok(_) => has_room(old(self)@, N as nat),
                Err(refused) => !has_room(old(self)@, N as nat) && refused == value,
            },
    {
        let len = self.len();
        if len == N {
            return Err(value);
        }
        let slot: usize = if self.tail < N {
            self.tail
        } else {
            self.tail - N
        };
        assert(slot == slot_of(N as int, self.head as int, len as int));
        self.slots.set(slot, Some(value));
        self.tail = if self.tail + 1 == 2 * N {
            0
        } else {
            self.tail + 1
        };
        proof {
            let n = N as int;
            let head = self.head as int;
            assert(distance(n, head, self.tail as int) == len + 1);
            assert forall|k: int| 0 <= k < len implies #[trigger] slot_of(n, head, k) != slot by {}
            assert(self@ =~= old(self)@.push(value));
        }
        Ok(())
    }

    /// Take the oldest item out, at the consumer's end.
    pub fn pop(&mut self) -> (item: Option<T>)
        requires
            old(self).wf(),
        ensures
            final(self).wf(),
            final(self)@ == popped(old(self)@),
            match item {
                Some(value) => old(self)@.len() > 0 && value == old(self)@[0],
                None => old(self)@.len() == 0,
            },
    {
        let len = self.len();
        if len == 0 {
            return None;
        }
        let slot: usize = if self.head < N {
            self.head
        } else {
            self.head - N
        };
        assert(slot == slot_of(N as int, self.head as int, 0));
        let item = self.slots[slot].take();
        self.head = if self.head + 1 == 2 * N {
            0
        } else {
            self.head + 1
        };
        proof {
            let n = N as int;
            let before = old(self).head as int;
            let head = self.head as int;
            assert(distance(n, head, self.tail as int) == len - 1);
            assert forall|k: int| 0 <= k < len - 1 implies #[trigger] slot_of(n, head, k) == slot_of(
                n,
                before,
                k + 1,
            ) && slot_of(n, head, k) != slot by {}
            assert forall|k: int|
                0 <= k < len - 1 implies (#[trigger] self.slots@[slot_of(n, head, k)]) is Some by {
                assert(old(self).slots@[slot_of(n, before, k + 1)] is Some);
            }
            assert(self@ =~= old(self)@.drop_first());
        }
        item
    }
}

/// One operation on a queue of at most `n` items.
pub enum QueueOp<T> {
    Push(T),
    Pop,
}

/// What has gone through a queue.
#[verifier::ext_equal]
pub struct Traffic<T> {
    /// Items accepted by `push`, in order.
    pub accepted: Seq<T>,
    /// Items returned by `pop`, in order.
    pub delivered: Seq<T>,
    /// Items in the queue.
    pub waiting: Seq<T>,
}

impl<T> Traffic<T> {
    /// The traffic after one more operation.
    pub open spec fn then_op(self, n: nat, op: QueueOp<T>) -> Self {
        match op {
            QueueOp::Push(value) => Traffic {
                accepted: if has_room(self.waiting, n) {
                    self.accepted.push(value)
                } else {
                    self.accepted
                },
                delivered: self.delivered,
                waiting: pushed(self.waiting, n, value),
            },
            QueueOp::Pop => Traffic {
                accepted: self.accepted,
                delivered: if self.waiting.len() > 0 {
                    self.delivered.push(self.waiting[0])
                } else {
                    self.delivered
                },
                waiting: popped(self.waiting),
            },
        }
    }

    /// The traffic after a run of operations.
    pub open spec fn after(self, n: nat, run: Seq<QueueOp<T>>) -> Self
        decreases run.len(),
    {
        if run.len() == 0 {
            self
        } else {
            self.after(n, run.drop_last()).then_op(n, run.last())
        }
    }
}

/// Nothing is lost, duplicated or reordered: what was delivered, followed by what
/// is waiting, is what was accepted. The queue never holds more than `n` items.
pub proof fn law_fifo<T>(n: nat, run: Seq<QueueOp<T>>)
    ensures
        ({
            let start = Traffic::<T> {
                accepted: Seq::empty(),
                delivered: Seq::empty(),
                waiting: Seq::empty(),
            };
            let end = start.after(n, run);
            &&& end.accepted == end.delivered + end.waiting
            &&& end.waiting.len() <= n
        }),
    decreases run.len(),
{
    let start = Traffic::<T> {
        accepted: Seq::empty(),
        delivered: Seq::empty(),
        waiting: Seq::empty(),
    };
    if run.len() == 0 {
        assert(start.accepted =~= start.delivered + start.waiting);
    } else {
        law_fifo(n, run.drop_last());
        let before = start.after(n, run.drop_last());
        let end = before.then_op(n, run.last());
        assert(end.accepted =~= end.delivered + end.waiting);
    }
}

/// A queue takes an item exactly while it holds fewer than `n`, puts it behind all
/// others, and gives out the one that has waited longest; neither touches the rest.
pub proof fn law_push_and_pop_move_one_item<T>(items: Seq<T>, n: nat, value: T)
    ensures
        has_room(items, n) <==> items.len() < n,
        !has_room(items, n) ==> pushed(items, n, value) == items,
        has_room(items, n) ==> {
            &&& pushed(items, n, value).len() == items.len() + 1
            &&& pushed(items, n, value).last() == value
            &&& forall|i: int|
                0 <= i < items.len() ==> pushed(items, n, value)[i] == #[trigger] items[i]
        },
        items.len() == 0 ==> popped(items).len() == 0,
        items.len() > 0 ==> {
            &&& popped(items).len() == items.len() - 1
            &&& forall|i: int| 0 < i < items.len() ==> popped(items)[i - 1] == #[trigger] items[i]
        },
{
}

/// What is pushed into an empty queue is what comes out next, and leaves it empty again.
pub proof fn law_push_then_pop<T>(n: nat, value: T)
    requires
        n >= 1,
    ensures
        has_room(Seq::<T>::empty(), n),
        pushed(Seq::<T>::empty(), n, value)[0] == value,
        popped(pushed(Seq::<T>::empty(), n, value)) == Seq::<T>::empty(),
{
    assert(popped(pushed(Seq::<T>::empty(), n, value)) =~= Seq::<T>::empty());
}

} // verus!
