//! Received triggers wait here, each with its full target list, until the
//! phase that may fire them drains the buffer.

use vstd::prelude::*;

use crate::server_trigger::ServerTriggerEvent;

verus! {

/// Decoded triggers of one event type, in order of receipt.
pub struct TriggerBuffer<E> {
    received: Vec<ServerTriggerEvent<E>>,
}

impl<E> TriggerBuffer<E> {
    pub closed spec fn received_spec(&self) -> Seq<ServerTriggerEvent<E>> {
        self.received@
    }

    pub fn new() -> (r: TriggerBuffer<E>)
        ensures
            r.received_spec() == Seq::<ServerTriggerEvent<E>>::empty(),
    {
        TriggerBuffer { received: Vec::new() }
    }

    pub fn len(&self) -> (r: usize)
        ensures
            r == self.received_spec().len(),
    {
        self.received.len()
    }

    /// Buffers one decoded trigger with all of its targets.
    pub fn push(&mut self, trigger: ServerTriggerEvent<E>)
        ensures
            final(self).received_spec() == old(self).received_spec().push(trigger),
    {
        self.received.push(trigger);
    }

    /// Hands out every buffered trigger, in order of receipt, each to be fired
    /// once on its whole target list; the buffer is left empty.
    pub fn drain(&mut self) -> (r: Vec<ServerTriggerEvent<E>>)
        ensures
            r@ == old(self).received_spec(),
            final(self).received_spec() == Seq::<ServerTriggerEvent<E>>::empty(),
    {
        let mut out: Vec<ServerTriggerEvent<E>> = Vec::new();
        core::mem::swap(&mut out, &mut self.received);
        out
    }
}

} // verus!
