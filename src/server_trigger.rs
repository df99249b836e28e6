//! Server triggers: events sent from the authoritative side together with the
//! entities they target, and where each one is delivered.

use vstd::prelude::*;

use crate::entity::{
    deserialize_entity, entity_bytes, lemma_entity_len, lemma_entity_round_trip, parse_entity, parsed_entity,
    parsed_entity_len, placeholder_id, serialize_entity, EntityId,
};
use crate::message::bytes_view;
use crate::serialized_data::lemma_flatten_concat;
use crate::varint::{
    lemma_varint_len, lemma_varint_round_trip, parse_varint, read_varint, varint, varint_len,
    varint_value, varint_within, write_varint, DecodeError,
};

verus! {

/// Which peers an event goes to. The authoritative side itself is addressed
/// by the placeholder id (see [`server_id`]).
#[derive(Clone, Copy, Debug, PartialEq, Eq, Structural)]
pub enum SendMode {
    Broadcast,
    Direct(EntityId),
    BroadcastExcept(EntityId),
}

/// The id that stands for the authoritative side as a destination.
pub open spec fn server_id() -> EntityId {
    placeholder_id()
}

impl SendMode {
    pub open spec fn selects(self, peer: EntityId) -> bool {
        match self {
            SendMode::Broadcast => true,
            SendMode::Direct(e) => e == peer,
            SendMode::BroadcastExcept(e) => e != peer,
        }
    }

    /// Whether `peer` is among the destinations.
    pub fn sends_to(&self, peer: EntityId) -> (r: bool)
        ensures
            r == self.selects(peer),
    {
        match self {
            SendMode::Broadcast => true,
            SendMode::Direct(e) => *e == peer,
            SendMode::BroadcastExcept(e) => *e != peer,
        }
    }
}

/// An event to send from the authoritative side, with its destinations.
pub struct ToClients<E> {
    pub mode: SendMode,
    pub event: E,
}

/// A trigger as it travels: the event and the entities it targets.
pub struct ServerTriggerEvent<E> {
    pub event: E,
    pub targets: Vec<EntityId>,
}

/// Wraps `event` as a trigger without targets.
pub fn server_trigger<E>(event: ToClients<E>) -> (r: ToClients<ServerTriggerEvent<E>>)
    ensures
        r.mode == event.mode,
        r.event.event == event.event,
        r.event.targets@ == Seq::<EntityId>::empty(),
{
    server_trigger_targets(event, Vec::new())
}

/// Wraps `event` as a trigger on `targets`.
pub fn server_trigger_targets<E>(event: ToClients<E>, targets: Vec<EntityId>) -> (r: ToClients<
    ServerTriggerEvent<E>,
>)
    ensures
        r.mode == event.mode,
        r.event.event == event.event,
        r.event.targets@ == targets@,
{
    ToClients { mode: event.mode, event: ServerTriggerEvent { event: event.event, targets } }
}

/// One delivery of an event: to the authoritative side's own event stream, or
/// through the transport to a connected client.
#[derive(Clone, Copy, Debug, PartialEq, Eq, Structural)]
pub enum Destination {
    Local,
    Client(EntityId),
}

/// The connected clients that `mode` selects, in the order given.
pub open spec fn remote_destinations(mode: SendMode, clients: Seq<EntityId>) -> Seq<Destination>
    decreases clients.len(),
{
    if clients.len() == 0 {
        Seq::empty()
    } else {
        let c = clients.last();
        let rest = remote_destinations(mode, clients.drop_last());
        if mode.selects(c) && c != server_id() {
            rest.push(Destination::Client(c))
        } else {
            rest
        }
    }
}

/// Every delivery of an event sent with `mode`: first the local one, where the
/// authoritative side is selected, then one per selected client.
pub open spec fn delivery_plan(mode: SendMode, clients: Seq<EntityId>) -> Seq<Destination> {
    if mode.selects(server_id()) {
        seq![Destination::Local] + remote_destinations(mode, clients)
    } else {
        remote_destinations(mode, clients)
    }
}

/// How many deliveries in `plan` are local.
pub open spec fn local_count(plan: Seq<Destination>) -> nat
    decreases plan.len(),
{
    if plan.len() == 0 {
        0
    } else {
        local_count(plan.drop_last()) + if plan.last() == Destination::Local {
            1nat
        } else {
            0nat
        }
    }
}

proof fn lemma_remote_has_no_local(mode: SendMode, clients: Seq<EntityId>)
    ensures
        local_count(remote_destinations(mode, clients)) == 0,
        forall|i: int|
            0 <= i < remote_destinations(mode, clients).len() ==> #[trigger] remote_destinations(
                mode,
                clients,
            )[i] != Destination::Local,
    decreases clients.len(),
{
    if clients.len() > 0 {
        lemma_remote_has_no_local(mode, clients.drop_last());
        let rest = remote_destinations(mode, clients.drop_last());
        let c = clients.last();
        if mode.selects(c) && c != server_id() {
            assert(rest.push(Destination::Client(c)).drop_last() =~= rest);
        }
    }
}

proof fn lemma_local_count_front(plan: Seq<Destination>)
    requires
        forall|i: int| 0 <= i < plan.len() ==> #[trigger] plan[i] != Destination::Local,
    ensures
        local_count(seq![Destination::Local] + plan) == 1,
        local_count(plan) == 0,
    decreases plan.len(),
{
    let l = seq![Destination::Local];
    if plan.len() > 0 {
        let p = plan.drop_last();
        assert forall|i: int| 0 <= i < p.len() implies #[trigger] p[i] != Destination::Local by {
            assert(p[i] == plan[i]);
        }
        lemma_local_count_front(p);
        assert((l + plan).drop_last() =~= l + p);
        assert(plan[plan.len() - 1] != Destination::Local);
        assert((l + plan).last() == plan[plan.len() - 1]);
        assert((l + plan).len() > 0);
    } else {
        assert(l + plan =~= l);
        assert(l.drop_last() =~= Seq::<Destination>::empty());
        assert(local_count(Seq::<Destination>::empty()) == 0);
        assert(l.last() == Destination::Local);
    }
}

/// An event reaches the authoritative side's own stream exactly once when it
/// is among the destinations, and never otherwise, however many clients are
/// connected.
pub proof fn lemma_local_echo_once(mode: SendMode, clients: Seq<EntityId>)
    ensures
        local_count(delivery_plan(mode, clients)) == if mode.selects(server_id()) {
            1nat
        } else {
            0nat
        },
{
    lemma_remote_has_no_local(mode, clients);
    lemma_local_count_front(remote_destinations(mode, clients));
}

/// Lists the deliveries of an event sent with `mode` to the connected
/// `clients`.
pub fn plan_delivery(mode: &SendMode, clients: &[EntityId]) -> (r: Vec<Destination>)
    ensures
        r@ == delivery_plan(*mode, clients@),
{
    let server = EntityId::placeholder();
    let mut remote: Vec<Destination> = Vec::new();
    let mut i: usize = 0;
    while i < clients.len()
        invariant
            i <= clients@.len(),
            server == server_id(),
            remote@ == remote_destinations(*mode, clients@.take(i as int)),
        decreases clients@.len() - i,
    {
        let c = clients[i];
        proof {
            assert(clients@.take(i + 1).drop_last() =~= clients@.take(i as int));
        }
        if mode.sends_to(c) && c != server {
            remote.push(Destination::Client(c));
        }
        i = i + 1;
    }
    proof {
        assert(clients@.take(i as int) =~= clients@);
    }
    if mode.sends_to(server) {
        let mut plan: Vec<Destination> = Vec::new();
        plan.push(Destination::Local);
        plan.append(&mut remote);
        proof {
            assert(plan@ =~= seq![Destination::Local] + remote_destinations(*mode, clients@));
        }
        plan
    } else {
        remote
    }
}

/// The bytes of entity ids written back to back.
pub open spec fn entities_bytes(targets: Seq<EntityId>) -> Seq<u8> {
    targets.map_values(|e: EntityId| entity_bytes(e)).flatten()
}

/// A trigger on the wire: the number of targets, the targets, then the bytes
/// of the event itself.
pub open spec fn trigger_bytes(targets: Seq<EntityId>, event: Seq<u8>) -> Seq<u8> {
    varint(targets.len()) + entities_bytes(targets) + event
}

/// `n` entity ids read back to back from the front of `s`, and the bytes they
/// take.
pub open spec fn parse_entities(s: Seq<u8>, n: nat) -> Option<(Seq<EntityId>, nat)>
    decreases n,
{
    if n == 0 {
        Some((Seq::empty(), 0nat))
    } else {
        match parse_entities(s, (n - 1) as nat) {
            Some((es, k)) => if k <= s.len() {
                match parse_entity(s.skip(k as int)) {
                    Some((e, k2)) => Some((es.push(e), k + k2)),
                    None => None,
                }
            } else {
                None
            },
            None => None,
        }
    }
}

/// The target list at the front of a trigger message, and the bytes it takes;
/// the event's own bytes follow.
pub open spec fn parse_trigger_targets(s: Seq<u8>) -> Option<(Seq<EntityId>, nat)> {
    match parse_varint(s) {
        Some((n, k)) => if k <= s.len() {
            match parse_entities(s.skip(k as int), n) {
                Some((es, k2)) => Some((es, k + k2)),
                None => None,
            }
        } else {
            None
        },
        None => None,
    }
}

pub open spec fn parsed_targets(s: Seq<u8>) -> Seq<EntityId> {
    match parse_trigger_targets(s) {
        Some((es, _)) => es,
        None => Seq::empty(),
    }
}

pub open spec fn parsed_targets_len(s: Seq<u8>) -> nat {
    match parse_trigger_targets(s) {
        Some((_, k)) => k,
        None => 0,
    }
}

proof fn lemma_entities_bytes_push(targets: Seq<EntityId>, e: EntityId)
    ensures
        entities_bytes(targets.push(e)) == entities_bytes(targets) + entity_bytes(e),
{
    let f = |e: EntityId| entity_bytes(e);
    assert(targets.push(e).map_values(f) =~= targets.map_values(f).push(entity_bytes(e)));
    targets.map_values(f).lemma_flatten_push(entity_bytes(e));
}

proof fn lemma_parse_entities_round_trip(targets: Seq<EntityId>, rest: Seq<u8>, i: nat)
    requires
        i <= targets.len(),
    ensures
        parse_entities(entities_bytes(targets) + rest, i) == Some(
            (targets.take(i as int), entities_bytes(targets.take(i as int)).len()),
        ),
    decreases i,
{
    let s = entities_bytes(targets) + rest;
    let f = |e: EntityId| entity_bytes(e);
    if i == 0 {
        assert(targets.take(0) =~= Seq::<EntityId>::empty());
        assert(entities_bytes(Seq::<EntityId>::empty()) =~= Seq::<u8>::empty());
    } else {
        let j = (i - 1) as int;
        lemma_parse_entities_round_trip(targets, rest, (i - 1) as nat);
        let pre = targets.take(j);
        assert(targets.take(i as int) =~= pre.push(targets[j]));
        lemma_entities_bytes_push(pre, targets[j]);
        let tail = targets.skip(i as int);
        assert(targets.map_values(f) =~= pre.map_values(f).push(entity_bytes(targets[j]))
            + tail.map_values(f));
        lemma_flatten_concat(pre.map_values(f).push(entity_bytes(targets[j])), tail.map_values(f));
        assert(pre.push(targets[j]).map_values(f) =~= pre.map_values(f).push(
            entity_bytes(targets[j]),
        ));
        let k = entities_bytes(pre).len();
        assert(s =~= entities_bytes(pre) + (entity_bytes(targets[j]) + (entities_bytes(tail)
            + rest)));
        assert(s.skip(k as int) =~= entity_bytes(targets[j]) + (entities_bytes(tail) + rest));
        lemma_entity_round_trip(targets[j], entities_bytes(tail) + rest);
    }
}

/// Reading a trigger back gives its targets, and the event's bytes are what
/// follows them.
pub proof fn lemma_trigger_round_trip(targets: Seq<EntityId>, event: Seq<u8>)
    ensures
        parse_trigger_targets(trigger_bytes(targets, event)) == Some(
            (targets, (varint(targets.len()) + entities_bytes(targets)).len()),
        ),
        trigger_bytes(targets, event).skip(
            (varint(targets.len()) + entities_bytes(targets)).len() as int,
        ) == event,
{
    let s = trigger_bytes(targets, event);
    let body = entities_bytes(targets) + event;
    assert(s =~= varint(targets.len()) + body);
    lemma_varint_round_trip(targets.len(), body);
    assert(s.skip(varint(targets.len()).len() as int) =~= body);
    lemma_parse_entities_round_trip(targets, event, targets.len());
    assert(targets.take(targets.len() as int) =~= targets);
    assert(s.skip((varint(targets.len()) + entities_bytes(targets)).len() as int) =~= event);
}

proof fn lemma_parse_entities_len(s: Seq<u8>, n: nat)
    requires
        parse_entities(s, n) is Some,
    ensures
        ({
            let k = match parse_entities(s, n) {
                Some((_, k)) => k,
                None => 0,
            };
            n <= k <= s.len()
        }),
    decreases n,
{
    if n > 0 {
        lemma_parse_entities_len(s, (n - 1) as nat);
        let k = match parse_entities(s, (n - 1) as nat) {
            Some((_, k)) => k,
            None => 0,
        };
        lemma_entity_len(s.skip(k as int));
    }
}

proof fn lemma_parse_entities_none(s: Seq<u8>, m: nat, n: nat)
    requires
        m <= n,
        parse_entities(s, m) is None,
    ensures
        parse_entities(s, n) is None,
    decreases n,
{
    if n > m {
        lemma_parse_entities_none(s, m, (n - 1) as nat);
    }
}

/// Writes a trigger: the count and list of its targets, then the bytes that
/// the event's serializer produced.
pub fn trigger_serialize(targets: &[EntityId], event: &[u8], message: &mut Vec<u8>)
    ensures
        final(message)@ == old(message)@ + trigger_bytes(targets@, event@),
{
    write_varint(message, targets.len() as u64);
    let ghost head = message@;
    let mut i: usize = 0;
    while i < targets.len()
        invariant
            i <= targets@.len(),
            message@ == head + entities_bytes(targets@.take(i as int)),
        decreases targets@.len() - i,
    {
        serialize_entity(message, targets[i]);
        proof {
            assert(targets@.take(i + 1) =~= targets@.take(i as int).push(targets@[i as int]));
            lemma_entities_bytes_push(targets@.take(i as int), targets@[i as int]);
        }
        i = i + 1;
    }
    proof {
        assert(targets@.take(i as int) =~= targets@);
    }
    let ghost body = message@;
    let mut j: usize = 0;
    while j < event.len()
        invariant
            j <= event@.len(),
            message@ == body + event@.take(j as int),
        decreases event@.len() - j,
    {
        message.push(event[j]);
        proof {
            assert(event@.take(j + 1) =~= event@.take(j as int).push(event@[j as int]));
        }
        j = j + 1;
    }
    proof {
        assert(event@.take(j as int) =~= event@);
        assert(message@ =~= old(message)@ + trigger_bytes(targets@, event@));
    }
}

/// Reads the targets of a trigger from the front of `message`, which is left
/// at the event's own bytes. The targets are authoritative ids; they are
/// mapped to replica ids afterwards, once the whole message has been read.
pub fn trigger_deserialize(message: &mut bytes::Bytes) -> (r: Result<Vec<EntityId>, DecodeError>)
    ensures
        r is Ok <==> parse_trigger_targets(bytes_view(*old(message))) is Some,
        r is Ok ==> r->Ok_0@ == parsed_targets(bytes_view(*old(message))),
        r is Ok ==> bytes_view(*final(message)) == bytes_view(*old(message)).skip(
            parsed_targets_len(bytes_view(*old(message))) as int,
        ),
{
    let ghost s = bytes_view(*message);
    let total = message.len();
    let len = match read_varint(message) {
        Ok(n) => n,
        Err(e) => {
            proof {
                if parse_varint(s) is Some {
                    lemma_varint_len(s);
                    let k = varint_len(s);
                    if parse_entities(s.skip(k as int), varint_value(s)) is Some {
                        lemma_parse_entities_len(s.skip(k as int), varint_value(s));
                    }
                }
            }
            return Err(e);
        },
    };
    let ghost k = varint_len(s);
    let ghost t = bytes_view(*message);
    proof {
        assert(t == s.skip(k as int));
        assert(parse_varint(s) == Some((len as nat, k)));
    }
    let mut targets: Vec<EntityId> = Vec::new();
    let mut i: u64 = 0;
    let ghost mut used: nat = 0;
    while i < len
        invariant
            i <= len,
            s == bytes_view(*old(message)),
            len == varint_value(s),
            parse_varint(s) == Some((len as nat, k)),
            k <= s.len(),
            t == s.skip(k as int),
            used <= t.len(),
            parse_entities(t, i as nat) == Some((targets@, used)),
            bytes_view(*message) == t.skip(used as int),
        decreases len - i,
    {
        let ghost before = bytes_view(*message);
        match deserialize_entity(message) {
            Ok(e) => {
                proof {
                    let k2 = parsed_entity_len(before);
                    assert(bytes_view(*message) =~= t.skip((used + k2) as int));
                    used = used + k2;
                }
                targets.push(e);
            },
            Err(e) => {
                proof {
                    assert(parse_entities(t, (i + 1) as nat) is None);
                    lemma_parse_entities_none(t, (i + 1) as nat, len as nat);
                }
                return Err(e);
            },
        }
        i = i + 1;
    }
    proof {
        assert(bytes_view(*message) =~= s.skip((k + used) as int));
    }
    Ok(targets)
}

/// A whole trigger message: the tick it was produced at, then the trigger.
pub open spec fn trigger_message_bytes(tick: u64, targets: Seq<EntityId>, event: Seq<u8>) -> Seq<
    u8,
> {
    varint(tick as nat) + trigger_bytes(targets, event)
}

/// Builds the message that carries a trigger produced at `tick`.
pub fn write_trigger_message(tick: u64, targets: &[EntityId], event: &[u8]) -> (r: Vec<u8>)
    ensures
        r@ == trigger_message_bytes(tick, targets@, event@),
{
    let mut message: Vec<u8> = Vec::new();
    write_varint(&mut message, tick);
    trigger_serialize(targets, event, &mut message);
    proof {
        assert(message@ =~= trigger_message_bytes(tick, targets@, event@));
    }
    message
}

/// Reads the tick and the targets of a trigger message, leaving `message` at
/// the event's own bytes.
pub fn read_trigger_message(message: &mut bytes::Bytes) -> (r: Result<
    (u64, Vec<EntityId>),
    DecodeError,
>)
    ensures
        ({
            let s = bytes_view(*old(message));
            let rest = s.skip(varint_len(s) as int);
            &&& r is Ok <==> varint_within(s, u64::MAX as nat) && parse_trigger_targets(rest) is Some
            &&& r matches Ok((tick, targets)) ==> tick == varint_value(s) && targets@
                == parsed_targets(rest)
            &&& r is Ok ==> bytes_view(*final(message)) == rest.skip(parsed_targets_len(rest) as int)
        }),
{
    let tick = match read_varint(message) {
        Ok(t) => t,
        Err(e) => {
            return Err(e);
        },
    };
    match trigger_deserialize(message) {
        Ok(targets) => Ok((tick, targets)),
        Err(e) => Err(e),
    }
}

} // verus!
