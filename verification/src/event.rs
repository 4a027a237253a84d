//! Events: per event type a double buffer, one side read while the other
//! is written.

use vstd::prelude::*;
use crate::resource::{Resource, ResourceId};

verus! {

/// Knows which resources are event buffers.
pub struct EventManager {
    event_lists: Vec<usize>,
}

impl View for EventManager {
    type V = Seq<usize>;

    /// The positions of the event buffers among the resources, in the
    /// order of their registration.
    closed spec fn view(&self) -> Seq<usize> {
        self.event_lists@
    }
}

impl EventManager {
    /// A manager without event buffers.
    pub fn new() -> (r: Self)
        ensures
            r@ == Seq::<usize>::empty(),
    {
        Self { event_lists: Vec::new() }
    }

    /// Records that the resource `id` is an event buffer.
    pub fn register_event<T: Resource>(&mut self, id: ResourceId<T>)
        ensures
            final(self)@ == old(self)@.push(id.index),
    {
        self.event_lists.push(id.index);
    }

    /// The positions of the event buffers among the resources.
    pub fn event_lists(&self) -> (r: &Vec<usize>)
        ensures
            r@ == self@,
    {
        &self.event_lists
    }
}

/// The mathematical content of an event buffer.
pub struct EventsView<T> {
    /// The events that readers see.
    pub read: Seq<T>,
    /// The events pushed since the last swap.
    pub write: Seq<T>,
}

/// The double buffer of one event type.
pub struct Events<T> {
    read: Vec<T>,
    write: Vec<T>,
}

impl<T> View for Events<T> {
    type V = EventsView<T>;

    closed spec fn view(&self) -> EventsView<T> {
        EventsView { read: self.read@, write: self.write@ }
    }
}

impl<T> Events<T> {
    /// An empty buffer.
    pub fn new() -> (r: Self)
        ensures
            r@.read == Seq::<T>::empty(),
            r@.write == Seq::<T>::empty(),
    {
        Self { read: Vec::new(), write: Vec::new() }
    }

    /// Adds `event` to the side that is written.
    pub fn push(&mut self, event: T)
        ensures
            final(self)@.write == old(self)@.write.push(event),
            final(self)@.read == old(self)@.read,
    {
        self.write.push(event);
    }

    /// The events on the side that is read, oldest first.
    pub fn iter(&self) -> (r: &Vec<T>)
        ensures
            r@ == self@.read,
    {
        &self.read
    }

    /// Swaps the sides: what was written is now read, what was read is
    /// dropped, and the side that is written is empty.
    pub fn clear(&mut self)
        ensures
            final(self)@.read == old(self)@.write,
            final(self)@.write == Seq::<T>::empty(),
    {
        self.read.clear();
        core::mem::swap(&mut self.read, &mut self.write);
    }
}

} // verus!
