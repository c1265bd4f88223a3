//! `DoubleBuffer`: frame-boundary publication.
//!
//! The writer fills the back slot over the course of a frame and publishes it in
//! one step; readers look at the front slot. Publishing only changes which slot is
//! which.
use vstd::prelude::*;

verus! {

/// The state of a double buffer.
pub struct DoubleView<T> {
    /// What readers see.
    pub front: T,
    /// What the writer fills.
    pub back: T,
}

impl<T> DoubleView<T> {
    /// The state with the slots' roles exchanged.
    pub open spec fn swapped(self) -> Self {
        DoubleView { front: self.back, back: self.front }
    }
}

/// Two slots, one in front.
pub struct DoubleBuffer<T> {
    even: T,
    odd: T,
    odd_in_front: bool,
}

impl<T> View for DoubleBuffer<T> {
    type V = DoubleView<T>;

    closed spec fn view(&self) -> DoubleView<T> {
        if self.odd_in_front {
            DoubleView { front: self.odd, back: self.even }
        } else {
            DoubleView { front: self.even, back: self.odd }
        }
    }
}

impl<T> DoubleBuffer<T> {
    /// A buffer that shows `initial`; the back slot starts as a clone of it.
    pub fn new(initial: T) -> (buffer: Self) where T: Clone
        ensures
            buffer@.front == initial,
            vstd::pervasive::strictly_cloned(initial, buffer@.back),
    {
        let back = initial.clone();
        DoubleBuffer { even: initial, odd: back, odd_in_front: false }
    }

    /// The back slot, for the writer to fill.
    pub fn back_mut(&mut self) -> (back: &mut T)
        ensures
            *back == old(self)@.back,
            final(self)@ == (DoubleView { front: old(self)@.front, back: *final(back) }),
    {
        if self.odd_in_front {
            &mut self.even
        } else {
            &mut self.odd
        }
    }

    /// Show the back slot to the readers; the slot they saw becomes the back.
    pub fn publish(&mut self)
        ensures
            final(self)@ == old(self)@.swapped(),
    {
        self.odd_in_front = !self.odd_in_front;
    }

    /// Overwrite the back slot and publish it.
    pub fn write(&mut self, value: T)
        ensures
            final(self)@ == (DoubleView { front: value, back: old(self)@.front }),
    {
        if self.odd_in_front {
            self.even = value;
        } else {
            self.odd = value;
        }
        self.publish();
    }

    /// What was published last.
    pub fn read(&self) -> (front: &T)
        ensures
            *front == self@.front,
    {
        if self.odd_in_front {
            &self.odd
        } else {
            &self.even
        }
    }
}

/// Filling the back slot is invisible to readers until it is published, and then
/// they see exactly what was filled in.
pub proof fn law_publish_shows_what_was_filled<T>(buffer: DoubleView<T>, filled: T)
    ensures
        ({
            let filling = DoubleView { front: buffer.front, back: filled };
            &&& filling.front == buffer.front
            &&& filling.swapped().front == filled
            &&& filling.swapped().back == buffer.front
        }),
{
}

/// Publishing twice restores the buffer.
pub proof fn law_publish_twice_is_identity<T>(buffer: DoubleView<T>)
    ensures
        buffer.swapped().swapped() == buffer,
{
}

} // verus!
