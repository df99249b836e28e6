//! The two-way map between authoritative entity ids and replica entity ids.

use std::collections::HashMap;

use vstd::prelude::*;

use crate::entity::{lemma_bits_injective, EntityId};

verus! {

broadcast use vstd::std_specs::hash::group_hash_axioms;

/// Why the map refused a change; it is left as it was.
#[derive(Clone, Copy, Debug, PartialEq, Eq, Structural)]
pub enum MappingError {
    /// One of the two ids already has an entry.
    AlreadyMapped,
    /// The number of placeholders differs from the number of unmapped targets.
    PlaceholderCount,
}

/// A map keyed by packed ids, seen as a map keyed by ids.
pub open spec fn keyed(m: Map<u64, EntityId>) -> Map<EntityId, EntityId> {
    Map::new(|e: EntityId| m.contains_key(e.bits_spec()), |e: EntityId| m[e.bits_spec()])
}

/// `back` undoes `forth` and the other way round: a one-to-one pairing.
pub open spec fn inverse(forth: Map<EntityId, EntityId>, back: Map<EntityId, EntityId>) -> bool {
    &&& forall|s: EntityId| #[trigger]
        forth.contains_key(s) ==> back.contains_key(forth[s]) && back[forth[s]] == s
    &&& forall|c: EntityId| #[trigger]
        back.contains_key(c) ==> forth.contains_key(back[c]) && forth[back[c]] == c
}

/// The distinct ids of `targets` that `m` has no entry for, in order of first
/// appearance.
pub open spec fn unmapped_spec(m: Map<EntityId, EntityId>, targets: Seq<EntityId>) -> Seq<
    EntityId,
>
    decreases targets.len(),
{
    if targets.len() == 0 {
        Seq::empty()
    } else {
        let u = unmapped_spec(m, targets.drop_last());
        let t = targets.last();
        if !m.contains_key(t) && !u.contains(t) {
            u.push(t)
        } else {
            u
        }
    }
}

/// The entries that pair each unmapped id with the placeholder at its place.
pub open spec fn placeholder_pairs(unmapped: Seq<EntityId>, placeholders: Seq<EntityId>) -> Map<
    EntityId,
    EntityId,
>
    decreases unmapped.len(),
{
    if unmapped.len() == 0 || placeholders.len() == 0 {
        Map::empty()
    } else {
        placeholder_pairs(unmapped.drop_last(), placeholders.drop_last()).insert(
            unmapped.last(),
            placeholders.last(),
        )
    }
}

/// No placeholder is already a mapped replica id, and no two are the same.
pub open spec fn fresh_placeholders(
    to_server: Map<EntityId, EntityId>,
    placeholders: Seq<EntityId>,
) -> bool {
    &&& forall|i: int| 0 <= i < placeholders.len() ==> !to_server.contains_key(#[trigger] placeholders[i])
    &&& placeholders.no_duplicates()
}

proof fn lemma_keyed_insert(m: Map<u64, EntityId>, k: EntityId, v: EntityId)
    ensures
        keyed(m.insert(k.bits_spec(), v)) == keyed(m).insert(k, v),
{
    assert forall|e: EntityId| e.bits_spec() == k.bits_spec() implies e == k by {
        lemma_bits_injective(e, k);
    }
    assert(keyed(m.insert(k.bits_spec(), v)) =~= keyed(m).insert(k, v));
}

proof fn lemma_keyed_remove(m: Map<u64, EntityId>, k: EntityId)
    ensures
        keyed(m.remove(k.bits_spec())) == keyed(m).remove(k),
{
    assert forall|e: EntityId| e.bits_spec() == k.bits_spec() implies e == k by {
        lemma_bits_injective(e, k);
    }
    assert(keyed(m.remove(k.bits_spec())) =~= keyed(m).remove(k));
}

/// Every target is mapped or unmapped; the unmapped ones are distinct and
/// have no entry.
proof fn lemma_unmapped_props(m: Map<EntityId, EntityId>, targets: Seq<EntityId>)
    ensures
        unmapped_spec(m, targets).no_duplicates(),
        forall|i: int|
            0 <= i < unmapped_spec(m, targets).len() ==> !m.contains_key(
                #[trigger] unmapped_spec(m, targets)[i],
            ),
        forall|i: int|
            0 <= i < targets.len() ==> m.contains_key(#[trigger] targets[i]) || unmapped_spec(
                m,
                targets,
            ).contains(targets[i]),
        forall|e: EntityId| #[trigger]
            unmapped_spec(m, targets).contains(e) ==> targets.contains(e),
    decreases targets.len(),
{
    if targets.len() > 0 {
        let pre = targets.drop_last();
        lemma_unmapped_props(m, pre);
        let u = unmapped_spec(m, pre);
        let t = targets.last();
        assert forall|i: int|
            0 <= i < targets.len() implies m.contains_key(#[trigger] targets[i])
            || unmapped_spec(m, targets).contains(targets[i]) by {
            if i < targets.len() - 1 {
                assert(pre[i] == targets[i]);
                if u.contains(targets[i]) {
                    let j = choose|j: int| 0 <= j < u.len() && u[j] == targets[i];
                    if !m.contains_key(t) && !u.contains(t) {
                        assert(u.push(t)[j] == targets[i]);
                    }
                }
            } else {
                if !m.contains_key(t) && !u.contains(t) {
                    assert(u.push(t)[u.len() as int] == t);
                }
            }
        }
        assert forall|e: EntityId| #[trigger]
            unmapped_spec(m, targets).contains(e) implies targets.contains(e) by {
            if u.contains(e) {
                let j = choose|j: int| 0 <= j < pre.len() && pre[j] == e;
                assert(targets[j] == e);
            } else {
                assert(targets[targets.len() - 1] == e);
            }
        }
    }
}

proof fn lemma_placeholder_pairs_push(
    unmapped: Seq<EntityId>,
    placeholders: Seq<EntityId>,
    i: int,
)
    requires
        0 <= i < unmapped.len(),
        unmapped.len() == placeholders.len(),
    ensures
        placeholder_pairs(unmapped.take(i + 1), placeholders.take(i + 1)) == placeholder_pairs(
            unmapped.take(i),
            placeholders.take(i),
        ).insert(unmapped[i], placeholders[i]),
{
    assert(unmapped.take(i + 1).drop_last() =~= unmapped.take(i));
    assert(placeholders.take(i + 1).drop_last() =~= placeholders.take(i));
}

proof fn lemma_remove_pair(
    a: Map<EntityId, EntityId>,
    b: Map<EntityId, EntityId>,
    server: EntityId,
    client: EntityId,
)
    requires
        inverse(a, b),
        a.contains_key(server) && a[server] == client || b.contains_key(client) && b[client]
            == server,
    ensures
        inverse(a.remove(server), b.remove(client)),
{
    let a2 = a.remove(server);
    let b2 = b.remove(client);
    assert(a.contains_key(server) && a[server] == client);
    assert(b.contains_key(client) && b[client] == server);
    assert forall|s: EntityId| #[trigger]
        a2.contains_key(s) implies b2.contains_key(a2[s]) && b2[a2[s]] == s by {
        assert(a.contains_key(s));
        assert(b[a[s]] == s);
    }
    assert forall|c: EntityId| #[trigger]
        b2.contains_key(c) implies a2.contains_key(b2[c]) && a2[b2[c]] == c by {
        assert(b.contains_key(c));
        assert(a[b[c]] == c);
    }
}

proof fn lemma_placeholder_pairs_dom(unmapped: Seq<EntityId>, placeholders: Seq<EntityId>)
    requires
        unmapped.len() == placeholders.len(),
    ensures
        forall|j: int|
            0 <= j < unmapped.len() ==> placeholder_pairs(unmapped, placeholders).contains_key(
                #[trigger] unmapped[j],
            ),
    decreases unmapped.len(),
{
    if unmapped.len() > 0 {
        lemma_placeholder_pairs_dom(unmapped.drop_last(), placeholders.drop_last());
        assert forall|j: int|
            0 <= j < unmapped.len() implies placeholder_pairs(unmapped, placeholders).contains_key(
            #[trigger] unmapped[j],
        ) by {
            if j < unmapped.len() - 1 {
                assert(unmapped.drop_last()[j] == unmapped[j]);
            }
        }
    }
}

/// Looking an id up on the other side and back gives the id again, in both
/// directions; and an authoritative id that had no entry, once `map_targets`
/// has paired it with a placeholder, maps to that placeholder, which maps back
/// to it.
pub proof fn lemma_identity_round_trip(
    map: ServerEntityMap,
    server: EntityId,
    client: EntityId,
    before: Map<EntityId, EntityId>,
    targets: Seq<EntityId>,
    placeholders: Seq<EntityId>,
)
    requires
        map.wf(),
    ensures
        map.to_client_map().contains_key(server) ==> map.to_server_map().contains_key(
            map.to_client_map()[server],
        ) && map.to_server_map()[map.to_client_map()[server]] == server,
        map.to_server_map().contains_key(client) ==> map.to_client_map().contains_key(
            map.to_server_map()[client],
        ) && map.to_client_map()[map.to_server_map()[client]] == client,
        map.to_client_map() == before.union_prefer_right(
            placeholder_pairs(unmapped_spec(before, targets), placeholders),
        ) && placeholders.len() == unmapped_spec(before, targets).len() && targets.contains(server)
            && !before.contains_key(server) ==> ({
            let i = choose|i: int|
                0 <= i < unmapped_spec(before, targets).len() && unmapped_spec(before, targets)[i]
                    == server;
            &&& map.to_client_map().contains_key(server)
            &&& map.to_client_map()[server] == placeholders[i]
            &&& map.to_server_map()[placeholders[i]] == server
        }),
{
    let us = unmapped_spec(before, targets);
    if map.to_client_map() == before.union_prefer_right(placeholder_pairs(us, placeholders))
        && placeholders.len() == us.len() && targets.contains(server) && !before.contains_key(
        server,
    ) {
        lemma_unmapped_props(before, targets);
        let j = choose|j: int| 0 <= j < targets.len() && targets[j] == server;
        assert(us.contains(targets[j]));
        let i = choose|i: int| 0 <= i < us.len() && us[i] == server;
        lemma_placeholder_pairs_at(us, placeholders, i);
    }
}

proof fn lemma_placeholder_pairs_at(unmapped: Seq<EntityId>, placeholders: Seq<EntityId>, i: int)
    requires
        unmapped.len() == placeholders.len(),
        unmapped.no_duplicates(),
        0 <= i < unmapped.len(),
    ensures
        placeholder_pairs(unmapped, placeholders).contains_key(unmapped[i]),
        placeholder_pairs(unmapped, placeholders)[unmapped[i]] == placeholders[i],
    decreases unmapped.len(),
{
    if i < unmapped.len() - 1 {
        let u = unmapped.drop_last();
        assert(u[i] == unmapped[i]);
        assert(unmapped[i] != unmapped[unmapped.len() - 1]);
        lemma_placeholder_pairs_at(u, placeholders.drop_last(), i);
    }
}

/// Maps authoritative entities to replica entities and back.
pub struct ServerEntityMap {
    server_to_client: HashMap<u64, EntityId>,
    client_to_server: HashMap<u64, EntityId>,
}

impl ServerEntityMap {
    /// Authoritative id to replica id.
    pub closed spec fn to_client_map(&self) -> Map<EntityId, EntityId> {
        keyed(self.server_to_client@)
    }

    /// Replica id to authoritative id.
    pub closed spec fn to_server_map(&self) -> Map<EntityId, EntityId> {
        keyed(self.client_to_server@)
    }

    pub open spec fn wf(&self) -> bool {
        inverse(self.to_client_map(), self.to_server_map())
    }

    pub fn new() -> (r: ServerEntityMap)
        ensures
            r.wf(),
            r.to_client_map() == Map::<EntityId, EntityId>::empty(),
            r.to_server_map() == Map::<EntityId, EntityId>::empty(),
    {
        let r = ServerEntityMap { server_to_client: HashMap::new(), client_to_server: HashMap::new() };
        assert(r.to_client_map() =~= Map::<EntityId, EntityId>::empty());
        assert(r.to_server_map() =~= Map::<EntityId, EntityId>::empty());
        r
    }

    /// The replica id paired with `server`, if any.
    pub fn to_client(&self, server: EntityId) -> (r: Option<EntityId>)
        ensures
            r == (if self.to_client_map().contains_key(server) {
                Some(self.to_client_map()[server])
            } else {
                None
            }),
    {
        match self.server_to_client.get(&server.to_bits()) {
            Some(c) => Some(*c),
            None => None,
        }
    }

    /// The authoritative id paired with `client`, if any.
    pub fn to_server(&self, client: EntityId) -> (r: Option<EntityId>)
        ensures
            r == (if self.to_server_map().contains_key(client) {
                Some(self.to_server_map()[client])
            } else {
                None
            }),
    {
        match self.client_to_server.get(&client.to_bits()) {
            Some(s) => Some(*s),
            None => None,
        }
    }

    fn insert_new(&mut self, server: EntityId, client: EntityId)
        requires
            old(self).wf(),
            !old(self).to_client_map().contains_key(server),
            !old(self).to_server_map().contains_key(client),
        ensures
            final(self).wf(),
            final(self).to_client_map() == old(self).to_client_map().insert(server, client),
            final(self).to_server_map() == old(self).to_server_map().insert(client, server),
    {
        proof {
            lemma_keyed_insert(self.server_to_client@, server, client);
            lemma_keyed_insert(self.client_to_server@, client, server);
        }
        self.server_to_client.insert(server.to_bits(), client);
        self.client_to_server.insert(client.to_bits(), server);
    }

    /// Pairs `server` with `client`. Refused where either already has an entry.
    pub fn insert(&mut self, server: EntityId, client: EntityId) -> (r: Result<(), MappingError>)
        requires
            old(self).wf(),
        ensures
            final(self).wf(),
            r is Ok <==> !old(self).to_client_map().contains_key(server)
                && !old(self).to_server_map().contains_key(client),
            r is Ok ==> final(self).to_client_map() == old(self).to_client_map().insert(
                server,
                client,
            ),
            r is Err ==> r == Err::<(), MappingError>(MappingError::AlreadyMapped)
                && final(self).to_client_map() == old(self).to_client_map()
                && final(self).to_server_map() == old(self).to_server_map(),
    {
        if self.server_to_client.contains_key(&server.to_bits())
            || self.client_to_server.contains_key(&client.to_bits()) {
            return Err(MappingError::AlreadyMapped);
        }
        self.insert_new(server, client);
        Ok(())
    }

    /// Drops the entry of a replica entity that was destroyed. Removing an
    /// absent id changes nothing.
    pub fn remove_by_client(&mut self, client: EntityId) -> (r: Option<EntityId>)
        requires
            old(self).wf(),
        ensures
            final(self).wf(),
            r == (if old(self).to_server_map().contains_key(client) {
                Some(old(self).to_server_map()[client])
            } else {
                None
            }),
            r matches Some(server) ==> final(self).to_client_map() == old(
                self,
            ).to_client_map().remove(server) && final(self).to_server_map() == old(
                self,
            ).to_server_map().remove(client),
            r is None ==> final(self).to_client_map() == old(self).to_client_map()
                && final(self).to_server_map() == old(self).to_server_map(),
    {
        match self.client_to_server.remove(&client.to_bits()) {
            Some(server) => {
                proof {
                    lemma_keyed_remove(old(self).client_to_server@, client);
                    lemma_keyed_remove(old(self).server_to_client@, server);
                }
                self.server_to_client.remove(&server.to_bits());
                proof {
                    lemma_remove_pair(old(self).to_client_map(), old(self).to_server_map(), server, client);
                }
                Some(server)
            },
            None => {
                proof {
                    assert(self.client_to_server@ =~= old(self).client_to_server@);
                }
                None
            },
        }
    }

    /// Drops the entry of an authoritative entity. Removing an absent id
    /// changes nothing.
    pub fn remove_by_server(&mut self, server: EntityId) -> (r: Option<EntityId>)
        requires
            old(self).wf(),
        ensures
            final(self).wf(),
            r == (if old(self).to_client_map().contains_key(server) {
                Some(old(self).to_client_map()[server])
            } else {
                None
            }),
            r matches Some(client) ==> final(self).to_client_map() == old(
                self,
            ).to_client_map().remove(server) && final(self).to_server_map() == old(
                self,
            ).to_server_map().remove(client),
            r is None ==> final(self).to_client_map() == old(self).to_client_map()
                && final(self).to_server_map() == old(self).to_server_map(),
    {
        match self.server_to_client.remove(&server.to_bits()) {
            Some(client) => {
                proof {
                    lemma_keyed_remove(old(self).server_to_client@, server);
                    lemma_keyed_remove(old(self).client_to_server@, client);
                }
                self.client_to_server.remove(&client.to_bits());
                proof {
                    lemma_remove_pair(old(self).to_client_map(), old(self).to_server_map(), server, client);
                }
                Some(client)
            },
            None => {
                proof {
                    assert(self.server_to_client@ =~= old(self).server_to_client@);
                }
                None
            },
        }
    }

    /// The distinct targets that have no entry yet, in order of first
    /// appearance: one placeholder entity is needed for each.
    pub fn unmapped(&self, targets: &[EntityId]) -> (r: Vec<EntityId>)
        ensures
            r@ == unmapped_spec(self.to_client_map(), targets@),
    {
        let mut r: Vec<EntityId> = Vec::new();
        let mut i: usize = 0;
        while i < targets.len()
            invariant
                i <= targets@.len(),
                r@ == unmapped_spec(self.to_client_map(), targets@.take(i as int)),
            decreases targets@.len() - i,
        {
            let t = targets[i];
            proof {
                assert(targets@.take(i + 1).drop_last() =~= targets@.take(i as int));
            }
            if self.to_client(t).is_none() {
                let mut seen = false;
                let mut j: usize = 0;
                while j < r.len()
                    invariant
                        j <= r@.len(),
                        seen <==> r@.take(j as int).contains(t),
                    decreases r@.len() - j,
                {
                    proof {
                        assert(r@.take(j + 1) =~= r@.take(j as int).push(r@[j as int]));
                    }
                    if r[j] == t {
                        seen = true;
                        proof {
                            assert(r@.take(j + 1)[j as int] == t);
                        }
                    }
                    j = j + 1;
                }
                proof {
                    assert(r@.take(j as int) =~= r@);
                }
                if !seen {
                    r.push(t);
                }
            }
            i = i + 1;
        }
        proof {
            assert(targets@.take(i as int) =~= targets@);
        }
        r
    }

    /// Resolves trigger targets to replica ids. Targets without an entry are
    /// paired, in the order of [`Self::unmapped`], with the given placeholder
    /// entities, which the host has just spawned. All checks come first: on an
    /// error nothing has changed.
    pub fn map_targets(&mut self, targets: &[EntityId], placeholders: &[EntityId]) -> (r: Result<
        Vec<EntityId>,
        MappingError,
    >)
        requires
            old(self).wf(),
        ensures
            final(self).wf(),
            ({
                let us = unmapped_spec(old(self).to_client_map(), targets@);
                &&& placeholders@.len() != us.len() ==> r == Err::<Vec<EntityId>, MappingError>(
                    MappingError::PlaceholderCount,
                )
                &&& placeholders@.len() == us.len() && !fresh_placeholders(
                    old(self).to_server_map(),
                    placeholders@,
                ) ==> r == Err::<Vec<EntityId>, MappingError>(MappingError::AlreadyMapped)
                &&& placeholders@.len() == us.len() && fresh_placeholders(
                    old(self).to_server_map(),
                    placeholders@,
                ) ==> r is Ok
                &&& r is Ok ==> final(self).to_client_map() == old(
                    self,
                ).to_client_map().union_prefer_right(placeholder_pairs(us, placeholders@))
                &&& r is Ok ==> r->Ok_0@.len() == targets@.len()
                &&& r is Ok ==> forall|i: int|
                    0 <= i < targets@.len() ==> final(self).to_client_map().contains_key(
                        targets@[i],
                    ) && #[trigger] r->Ok_0@[i] == final(self).to_client_map()[targets@[i]]
                &&& r is Err ==> final(self).to_client_map() == old(self).to_client_map()
                    && final(self).to_server_map() == old(self).to_server_map()
            }),
    {
        let us = self.unmapped(targets);
        let ghost m0 = self.to_client_map();
        proof {
            lemma_unmapped_props(m0, targets@);
        }
        if placeholders.len() != us.len() {
            return Err(MappingError::PlaceholderCount);
        }
        let mut i: usize = 0;
        while i < placeholders.len()
            invariant
                self.wf(),
                self.to_client_map() == m0,
                self.to_client_map() == old(self).to_client_map(),
                self.to_server_map() == old(self).to_server_map(),
                us@ == unmapped_spec(m0, targets@),
                us@.len() == placeholders@.len(),
                i <= placeholders@.len(),
                forall|k: int| 0 <= k < i ==> !self.to_server_map().contains_key(#[trigger] placeholders@[k]),
                forall|k: int, l: int|
                    0 <= k < l < i ==> #[trigger] placeholders@[k] != #[trigger] placeholders@[l],
            decreases placeholders@.len() - i,
        {
            let p = placeholders[i];
            if self.to_server(p).is_some() {
                return Err(MappingError::AlreadyMapped);
            }
            let mut j: usize = 0;
            while j < i
                invariant
                    self.wf(),
                    self.to_client_map() == old(self).to_client_map(),
                    self.to_server_map() == old(self).to_server_map(),
                    m0 == old(self).to_client_map(),
                    us@ == unmapped_spec(m0, targets@),
                    us@.len() == placeholders@.len(),
                    j <= i < placeholders@.len(),
                    p == placeholders@[i as int],
                    forall|l: int| 0 <= l < j ==> #[trigger] placeholders@[l] != p,
                decreases i - j,
            {
                if placeholders[j] == p {
                    proof {
                        assert(!placeholders@.no_duplicates()) by {
                            assert(placeholders@[j as int] == placeholders@[i as int]);
                        }
                    }
                    return Err(MappingError::AlreadyMapped);
                }
                j = j + 1;
            }
            i = i + 1;
        }
        proof {
            assert(placeholders@.no_duplicates()) by {
                assert forall|k: int, l: int|
                    0 <= k < placeholders@.len() && 0 <= l < placeholders@.len() && k != l
                    implies placeholders@[k] != placeholders@[l] by {
                    if k < l {
                        assert(placeholders@[k] != placeholders@[l]);
                    } else {
                        assert(placeholders@[l] != placeholders@[k]);
                    }
                }
            }
            assert(fresh_placeholders(old(self).to_server_map(), placeholders@));
        }
        let ghost old_to_server = self.to_server_map();
        let mut i: usize = 0;
        while i < us.len()
            invariant
                self.wf(),
                i <= us@.len(),
                us@.len() == placeholders@.len(),
                us@ == unmapped_spec(m0, targets@),
                us@.no_duplicates(),
                forall|k: int| 0 <= k < us@.len() ==> !m0.contains_key(#[trigger] us@[k]),
                placeholders@.no_duplicates(),
                forall|k: int| 0 <= k < placeholders@.len() ==> !old_to_server.contains_key(#[trigger] placeholders@[k]),
                self.to_client_map() == m0.union_prefer_right(
                    placeholder_pairs(us@.take(i as int), placeholders@.take(i as int)),
                ),
                forall|k: int| i <= k < us@.len() ==> !self.to_client_map().contains_key(#[trigger] us@[k]),
                forall|k: int|
                    i <= k < placeholders@.len() ==> !self.to_server_map().contains_key(
                        #[trigger] placeholders@[k],
                    ),
                forall|c: EntityId| #[trigger]
                    self.to_server_map().contains_key(c) ==> old_to_server.contains_key(c)
                        || placeholders@.take(i as int).contains(c),
                forall|s: EntityId| #[trigger]
                    self.to_client_map().contains_key(s) ==> m0.contains_key(s) || us@.take(
                        i as int,
                    ).contains(s),
            decreases us@.len() - i,
        {
            let s = us[i];
            let c = placeholders[i];
            self.insert_new(s, c);
            proof {
                lemma_placeholder_pairs_push(us@, placeholders@, i as int);
                assert(placeholders@.take(i + 1) =~= placeholders@.take(i as int).push(c));
                assert(us@.take(i + 1) =~= us@.take(i as int).push(s));
                assert(m0.union_prefer_right(
                    placeholder_pairs(us@.take(i as int), placeholders@.take(i as int)),
                ).insert(s, c) =~= m0.union_prefer_right(
                    placeholder_pairs(us@.take(i + 1), placeholders@.take(i + 1)),
                ));
                assert forall|k: int| i + 1 <= k < us@.len() implies !self.to_client_map().contains_key(#[trigger] us@[k]) by {
                    assert(us@[k] != us@[i as int]);
                }
                assert forall|k: int|
                    i + 1 <= k < placeholders@.len() implies !self.to_server_map().contains_key(
                        #[trigger] placeholders@[k],
                    ) by {
                    assert(placeholders@[k] != placeholders@[i as int]);
                }
            }
            i = i + 1;
        }
        proof {
            assert(us@.take(i as int) =~= us@);
            assert(placeholders@.take(i as int) =~= placeholders@);
            lemma_placeholder_pairs_dom(us@, placeholders@);
        }
        let mut out: Vec<EntityId> = Vec::new();
        let mut k: usize = 0;
        while k < targets.len()
            invariant
                self.wf(),
                k <= targets@.len(),
                out@.len() == k,
                self.to_client_map() == m0.union_prefer_right(placeholder_pairs(us@, placeholders@)),
                forall|t: int| 0 <= t < targets@.len() ==> m0.contains_key(#[trigger] targets@[t]) || us@.contains(targets@[t]),
                forall|j: int| 0 <= j < us@.len() ==> self.to_client_map().contains_key(#[trigger] us@[j]),
                forall|j: int|
                    0 <= j < k ==> self.to_client_map().contains_key(targets@[j]) && #[trigger] out@[j]
                        == self.to_client_map()[targets@[j]],
            decreases targets@.len() - k,
        {
            let t = targets[k];
            proof {
                if !m0.contains_key(t) {
                    assert(us@.contains(t));
                    let j = choose|j: int| 0 <= j < us@.len() && us@[j] == t;
                    assert(self.to_client_map().contains_key(us@[j]));
                }
            }
            match self.to_client(t) {
                Some(c) => out.push(c),
                None => {
                    proof {
                        assert(false);
                    }
                    return Err(MappingError::AlreadyMapped);
                },
            }
            k = k + 1;
        }
        Ok(out)
    }
}

} // verus!
