//! The registry of remote server triggers, built once at setup.

use vstd::prelude::*;

verus! {

/// The host's identifier of the storage of one event type.
pub type EventsId = u64;

/// What is known of one registered remote event type.
#[derive(Clone, Copy, Debug, PartialEq, Eq, Structural)]
pub struct ServerEvent {
    pub events_id: EventsId,
    /// The transport channel its messages go through.
    pub channel: usize,
    /// Delivered on receipt, without waiting for the replica's applied tick.
    pub independent: bool,
}

/// A registered server trigger: a server event whose receipt fires a trigger.
pub struct ServerTrigger {
    event: ServerEvent,
}

impl ServerTrigger {
    pub closed spec fn event_spec(&self) -> ServerEvent {
        self.event
    }

    /// A trigger for the events stored under `events_id`, sent on `channel`,
    /// ordered by tick until made independent.
    pub fn new(events_id: EventsId, channel: usize) -> (r: ServerTrigger)
        ensures
            r.event_spec() == (ServerEvent { events_id, channel, independent: false }),
    {
        ServerTrigger { event: ServerEvent { events_id, channel, independent: false } }
    }

    pub fn event(&self) -> (r: &ServerEvent)
        ensures
            *r == self.event_spec(),
    {
        &self.event
    }

    pub fn event_mut(&mut self) -> (r: &mut ServerEvent)
        ensures
            *r == old(self).event_spec(),
            final(self).event_spec() == *final(r),
    {
        &mut self.event
    }
}

/// Why the registry refused a change; it is left as it was.
#[derive(Clone, Copy, Debug, PartialEq, Eq, Structural)]
pub enum RegistryError {
    /// The event type already has a registration; ids are never reassigned.
    AlreadyRegistered,
    /// The event type was never registered as a server trigger.
    NotRegistered,
}

/// Some registered event has this id.
pub open spec fn registered(events: Seq<ServerEvent>, events_id: EventsId) -> bool {
    exists|i: int| 0 <= i < events.len() && (#[trigger] events[i]).events_id == events_id
}

/// The registered events after the one of `events_id` is made independent.
pub open spec fn with_independent(events: Seq<ServerEvent>, events_id: EventsId) -> Seq<
    ServerEvent,
> {
    events.map_values(
        |e: ServerEvent|
            if e.events_id == events_id {
                ServerEvent { independent: true, ..e }
            } else {
                e
            },
    )
}

/// Remote server triggers by registration order; each event type at most once.
pub struct RemoteEventRegistry {
    server_triggers: Vec<ServerTrigger>,
}

impl RemoteEventRegistry {
    pub closed spec fn events_spec(&self) -> Seq<ServerEvent> {
        self.server_triggers@.map_values(|t: ServerTrigger| t.event_spec())
    }

    pub open spec fn wf(&self) -> bool {
        forall|i: int, j: int|
            0 <= i < j < self.events_spec().len() ==> (#[trigger] self.events_spec()[i]).events_id
                != (#[trigger] self.events_spec()[j]).events_id
    }

    pub fn new() -> (r: RemoteEventRegistry)
        ensures
            r.wf(),
            r.events_spec() == Seq::<ServerEvent>::empty(),
    {
        let r = RemoteEventRegistry { server_triggers: Vec::new() };
        assert(r.events_spec() =~= Seq::<ServerEvent>::empty());
        r
    }

    fn position(&self, events_id: EventsId) -> (r: Option<usize>)
        ensures
            r matches Some(i) ==> i < self.events_spec().len() && self.events_spec()[i as int].events_id
                == events_id,
            r is None ==> !registered(self.events_spec(), events_id),
    {
        let mut i: usize = 0;
        while i < self.server_triggers.len()
            invariant
                i <= self.events_spec().len(),
                self.events_spec().len() == self.server_triggers@.len(),
                forall|j: int| 0 <= j < i ==> (#[trigger] self.events_spec()[j]).events_id != events_id,
            decreases self.server_triggers@.len() - i,
        {
            if self.server_triggers[i].event().events_id == events_id {
                return Some(i);
            }
            i = i + 1;
        }
        None
    }

    /// The registration of `events_id`, if any.
    pub fn server_event(&self, events_id: EventsId) -> (r: Option<ServerEvent>)
        requires
            self.wf(),
        ensures
            r is None <==> !registered(self.events_spec(), events_id),
            r matches Some(e) ==> e.events_id == events_id && self.events_spec().contains(e),
    {
        match self.position(events_id) {
            Some(i) => {
                let e = *self.server_triggers[i].event();
                proof {
                    assert(self.events_spec()[i as int] == e);
                }
                Some(e)
            },
            None => None,
        }
    }

    /// Adds a server trigger. An event type registered before is refused.
    pub fn register_server_trigger(&mut self, trigger: ServerTrigger) -> (r: Result<
        (),
        RegistryError,
    >)
        requires
            old(self).wf(),
        ensures
            final(self).wf(),
            r is Ok <==> !registered(old(self).events_spec(), trigger.event_spec().events_id),
            r is Ok ==> final(self).events_spec() == old(self).events_spec().push(
                trigger.event_spec(),
            ),
            r is Err ==> r == Err::<(), RegistryError>(RegistryError::AlreadyRegistered)
                && final(self).events_spec() == old(self).events_spec(),
    {
        let id = trigger.event().events_id;
        if self.position(id).is_some() {
            return Err(RegistryError::AlreadyRegistered);
        }
        let ghost before = self.events_spec();
        let ghost ev = trigger.event_spec();
        self.server_triggers.push(trigger);
        proof {
            assert(self.events_spec() =~= before.push(ev));
            assert forall|i: int, j: int|
                0 <= i < j < self.events_spec().len() implies (#[trigger] self.events_spec()[i]).events_id
                != (#[trigger] self.events_spec()[j]).events_id by {
                if j == before.len() {
                    assert(self.events_spec()[i] == before[i]);
                }
            }
        }
        Ok(())
    }

    /// Marks the server trigger of `events_id` as independent: its events are
    /// delivered on receipt instead of waiting for the applied tick.
    pub fn make_trigger_independent(&mut self, events_id: EventsId) -> (r: Result<
        (),
        RegistryError,
    >)
        requires
            old(self).wf(),
        ensures
            final(self).wf(),
            r is Ok <==> registered(old(self).events_spec(), events_id),
            r is Ok ==> final(self).events_spec() == with_independent(
                old(self).events_spec(),
                events_id,
            ),
            r is Err ==> r == Err::<(), RegistryError>(RegistryError::NotRegistered)
                && final(self).events_spec() == old(self).events_spec(),
    {
        let i = match self.position(events_id) {
            Some(i) => i,
            None => {
                return Err(RegistryError::NotRegistered);
            },
        };
        let ghost before = self.events_spec();
        let mut trigger = self.server_triggers.remove(i);
        trigger.event_mut().independent = true;
        self.server_triggers.insert(i, trigger);
        proof {
            let after = self.events_spec();
            assert forall|j: int| 0 <= j < before.len() implies after[j] == with_independent(
                before,
                events_id,
            )[j] by {
                if j != i {
                    assert(before[j].events_id != events_id) by {
                        if j < i {
                            assert(before[j].events_id != before[i as int].events_id);
                        } else {
                            assert(before[i as int].events_id != before[j].events_id);
                        }
                    }
                }
            }
            assert(after =~= with_independent(before, events_id));
            assert forall|a: int, b: int|
                0 <= a < b < after.len() implies (#[trigger] after[a]).events_id != (
                #[trigger] after[b]).events_id by {
                assert(before[a].events_id != before[b].events_id);
            }
        }
        Ok(())
    }
}

} // verus!
