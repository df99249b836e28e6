//! Holds remote events until the replica's world has caught up with the tick
//! they were produced at.

use vstd::multiset::Multiset;
use vstd::prelude::*;

verus! {

/// Ticks never decrease along `q`.
pub open spec fn sorted_by_tick<T>(q: Seq<(u64, T)>) -> bool {
    forall|i: int, j: int| 0 <= i <= j < q.len() ==> (#[trigger] q[i]).0 <= (#[trigger] q[j]).0
}

/// Where an entry of tick `t` goes: after the last entry whose tick is at most
/// `t`, so that entries of one tick keep their order of arrival.
pub open spec fn tick_position<T>(q: Seq<(u64, T)>, t: u64) -> int
    decreases q.len(),
{
    if q.len() == 0 {
        0
    } else if q.last().0 <= t {
        q.len() as int
    } else {
        tick_position(q.drop_last(), t)
    }
}

pub open spec fn insert_by_tick<T>(q: Seq<(u64, T)>, entry: (u64, T)) -> Seq<(u64, T)> {
    q.insert(tick_position(q, entry.0), entry)
}

/// How many entries at the front of `q` have a tick of at most `applied`.
pub open spec fn ready_count<T>(q: Seq<(u64, T)>, applied: u64) -> nat
    decreases q.len(),
{
    if q.len() == 0 || q[0].0 > applied {
        0
    } else {
        1 + ready_count(q.drop_first(), applied)
    }
}

/// An event of tick `tick` may be applied once the replica has applied `applied`.
pub open spec fn released(applied: Option<u64>, tick: u64) -> bool {
    match applied {
        Some(a) => tick <= a,
        None => false,
    }
}

/// The applied tick after the state-sync path reports `tick`: it never goes back.
pub open spec fn advanced(applied: Option<u64>, tick: u64) -> u64 {
    match applied {
        Some(a) => if a >= tick {
            a
        } else {
            tick
        },
        None => tick,
    }
}

/// Envelopes arriving one after another while all are held.
pub open spec fn enqueue_all<T>(q: Seq<(u64, T)>, arrivals: Seq<(u64, T)>) -> Seq<(u64, T)>
    decreases arrivals.len(),
{
    if arrivals.len() == 0 {
        q
    } else {
        enqueue_all(insert_by_tick(q, arrivals[0]), arrivals.drop_first())
    }
}

proof fn lemma_tick_position<T>(q: Seq<(u64, T)>, t: u64)
    requires
        sorted_by_tick(q),
    ensures
        0 <= tick_position(q, t) <= q.len(),
        forall|i: int| 0 <= i < tick_position(q, t) ==> (#[trigger] q[i]).0 <= t,
        forall|i: int| tick_position(q, t) <= i < q.len() ==> (#[trigger] q[i]).0 > t,
    decreases q.len(),
{
    if q.len() > 0 {
        if q.last().0 <= t {
            assert forall|i: int| 0 <= i < q.len() implies (#[trigger] q[i]).0 <= t by {
                assert(q[i].0 <= q[q.len() - 1].0);
            }
        } else {
            let p = q.drop_last();
            lemma_tick_position(p, t);
            assert forall|i: int| 0 <= i < tick_position(q, t) implies (#[trigger] q[i]).0 <= t by {
                assert(p[i] == q[i]);
            }
            assert forall|i: int| tick_position(q, t) <= i < q.len() implies (#[trigger] q[i]).0
                > t by {
                if i < q.len() - 1 {
                    assert(p[i] == q[i]);
                }
            }
        }
    }
}

proof fn lemma_insert_sorted<T>(q: Seq<(u64, T)>, entry: (u64, T))
    requires
        sorted_by_tick(q),
    ensures
        sorted_by_tick(insert_by_tick(q, entry)),
        insert_by_tick(q, entry).to_multiset() == q.to_multiset().insert(entry),
        insert_by_tick(q, entry).len() == q.len() + 1,
{
    lemma_tick_position(q, entry.0);
    let p = tick_position(q, entry.0);
    let r = insert_by_tick(q, entry);
    assert forall|i: int, j: int| 0 <= i <= j < r.len() implies (#[trigger] r[i]).0 <= (
    #[trigger] r[j]).0 by {
        if i < p && j < p {
            assert(r[i] == q[i] && r[j] == q[j]);
        } else if i < p && j == p {
            assert(r[i] == q[i]);
        } else if i < p {
            assert(r[i] == q[i] && r[j] == q[j - 1]);
        } else if i == p && j > p {
            assert(r[j] == q[j - 1]);
        } else if i > p {
            assert(r[i] == q[i - 1] && r[j] == q[j - 1]);
        }
    }
    vstd::seq_lib::to_multiset_insert(q, p, entry);
}

proof fn lemma_ready_count<T>(q: Seq<(u64, T)>, applied: u64)
    requires
        sorted_by_tick(q),
    ensures
        ready_count(q, applied) <= q.len(),
        forall|i: int| 0 <= i < q.len() ==> (i < ready_count(q, applied) <==> (#[trigger] q[i]).0
            <= applied),
    decreases q.len(),
{
    if q.len() > 0 {
        if q[0].0 > applied {
            assert forall|i: int| 0 <= i < q.len() implies (#[trigger] q[i]).0 > applied by {
                assert(q[0].0 <= q[i].0);
            }
        } else {
            let d = q.drop_first();
            lemma_ready_count(d, applied);
            assert forall|i: int| 0 <= i < q.len() implies (i < ready_count(q, applied) <==> (
            #[trigger] q[i]).0 <= applied) by {
                if i > 0 {
                    assert(d[i - 1] == q[i]);
                }
            }
        }
    }
}

proof fn lemma_enqueue_all<T>(q: Seq<(u64, T)>, arrivals: Seq<(u64, T)>)
    requires
        sorted_by_tick(q),
    ensures
        sorted_by_tick(enqueue_all(q, arrivals)),
        enqueue_all(q, arrivals).to_multiset() == q.to_multiset().add(arrivals.to_multiset()),
    decreases arrivals.len(),
{
    if arrivals.len() == 0 {
        assert(arrivals.to_multiset() =~= Multiset::empty()) by {
            broadcast use vstd::seq_lib::group_to_multiset_ensures;

            assert(arrivals =~= Seq::<(u64, T)>::empty());
        }
        assert(q.to_multiset().add(arrivals.to_multiset()) =~= q.to_multiset());
    } else {
        let q2 = insert_by_tick(q, arrivals[0]);
        lemma_insert_sorted(q, arrivals[0]);
        lemma_enqueue_all(q2, arrivals.drop_first());
        assert(arrivals =~= seq![arrivals[0]] + arrivals.drop_first());
        vstd::seq_lib::lemma_multiset_commutative(seq![arrivals[0]], arrivals.drop_first());
        assert(seq![arrivals[0]].to_multiset() =~= Multiset::empty().insert(arrivals[0])) by {
            broadcast use vstd::seq_lib::group_to_multiset_ensures;

            assert(seq![arrivals[0]] =~= Seq::<(u64, T)>::empty().push(arrivals[0]));
        }
        assert(q2.to_multiset().add(arrivals.drop_first().to_multiset()) =~= q.to_multiset().add(
            arrivals.to_multiset(),
        ));
    }
}

/// Envelopes held until the applied tick reaches them leave in tick order,
/// whatever order they arrived in: after any arrivals the queue is sorted by
/// tick and holds exactly what arrived, and advancing the applied tick to
/// `applied` releases the entries of tick at most `applied`, which form its
/// front.
pub proof fn lemma_dispatch_in_tick_order<T>(arrivals: Seq<(u64, T)>, applied: u64)
    ensures
        ({
            let q = enqueue_all(Seq::<(u64, T)>::empty(), arrivals);
            let k = ready_count(q, applied);
            &&& sorted_by_tick(q)
            &&& q.to_multiset() == arrivals.to_multiset()
            &&& k <= q.len()
            &&& forall|i: int| 0 <= i < q.len() ==> (i < k <==> (#[trigger] q[i]).0 <= applied)
        }),
{
    let q = enqueue_all(Seq::<(u64, T)>::empty(), arrivals);
    lemma_enqueue_all(Seq::<(u64, T)>::empty(), arrivals);
    assert(Seq::<(u64, T)>::empty().to_multiset() =~= Multiset::empty()) by {
        broadcast use vstd::seq_lib::group_to_multiset_ensures;

    }
    assert(Multiset::empty().add(arrivals.to_multiset()) =~= arrivals.to_multiset());
    lemma_ready_count(q, applied);
}

/// No two entries share a tick.
pub open spec fn distinct_ticks<T>(s: Seq<(u64, T)>) -> bool {
    forall|i: int, j: int|
        0 <= i < s.len() && 0 <= j < s.len() && i != j ==> (#[trigger] s[i]).0 != (
        #[trigger] s[j]).0
}

/// Some entry of `s` has tick `t`.
pub open spec fn has_tick<T>(s: Seq<(u64, T)>, t: u64) -> bool {
    exists|i: int| 0 <= i < s.len() && (#[trigger] s[i]).0 == t
}

proof fn lemma_insert_ticks<T>(q: Seq<(u64, T)>, entry: (u64, T))
    requires
        sorted_by_tick(q),
    ensures
        forall|t: u64| #[trigger]
            has_tick(insert_by_tick(q, entry), t) <==> (has_tick(q, t) || entry.0 == t),
        distinct_ticks(q) && !has_tick(q, entry.0) ==> distinct_ticks(insert_by_tick(q, entry)),
{
    lemma_tick_position(q, entry.0);
    let p = tick_position(q, entry.0);
    let r = insert_by_tick(q, entry);
    assert forall|t: u64| #[trigger]
        has_tick(r, t) <==> (has_tick(q, t) || entry.0 == t) by {
        if has_tick(r, t) {
            let i = choose|i: int| 0 <= i < r.len() && (#[trigger] r[i]).0 == t;
            if i < p {
                assert(q[i] == r[i]);
            } else if i > p {
                assert(q[i - 1] == r[i]);
            }
        }
        if has_tick(q, t) {
            let i = choose|i: int| 0 <= i < q.len() && (#[trigger] q[i]).0 == t;
            if i < p {
                assert(r[i] == q[i]);
            } else {
                assert(r[i + 1] == q[i]);
            }
        }
        if entry.0 == t {
            assert(r[p] == entry);
        }
    }
    if distinct_ticks(q) && !has_tick(q, entry.0) {
        assert forall|i: int, j: int|
            0 <= i < r.len() && 0 <= j < r.len() && i != j implies (#[trigger] r[i]).0 != (
            #[trigger] r[j]).0 by {
            let qi = if i < p {
                i
            } else {
                i - 1
            };
            let qj = if j < p {
                j
            } else {
                j - 1
            };
            if i == p {
                assert(r[j] == q[qj]);
            } else if j == p {
                assert(r[i] == q[qi]);
            } else {
                assert(r[i] == q[qi] && r[j] == q[qj]);
            }
        }
    }
}

proof fn lemma_enqueue_distinct<T>(q: Seq<(u64, T)>, arrivals: Seq<(u64, T)>)
    requires
        sorted_by_tick(q),
        distinct_ticks(q),
        distinct_ticks(arrivals),
        forall|t: u64| has_tick(q, t) ==> !#[trigger] has_tick(arrivals, t),
    ensures
        distinct_ticks(enqueue_all(q, arrivals)),
    decreases arrivals.len(),
{
    if arrivals.len() > 0 {
        let x = arrivals[0];
        let rest = arrivals.drop_first();
        assert(has_tick(arrivals, x.0));
        lemma_insert_sorted(q, x);
        lemma_insert_ticks(q, x);
        let q2 = insert_by_tick(q, x);
        assert forall|i: int, j: int|
            0 <= i < rest.len() && 0 <= j < rest.len() && i != j implies (#[trigger] rest[i]).0
            != (#[trigger] rest[j]).0 by {
            assert(rest[i] == arrivals[i + 1] && rest[j] == arrivals[j + 1]);
        }
        assert forall|t: u64| has_tick(q2, t) implies !#[trigger] has_tick(rest, t) by {
            if has_tick(rest, t) {
                let j = choose|j: int| 0 <= j < rest.len() && (#[trigger] rest[j]).0 == t;
                assert(arrivals[j + 1] == rest[j]);
                assert(has_tick(arrivals, t));
                if !has_tick(q, t) {
                    assert(arrivals[0].0 != arrivals[j + 1].0);
                }
            }
        }
        lemma_enqueue_distinct(q2, rest);
    }
}

proof fn lemma_sorted_unique<T>(a: Seq<(u64, T)>, b: Seq<(u64, T)>)
    requires
        sorted_by_tick(a),
        sorted_by_tick(b),
        distinct_ticks(a),
        a.to_multiset() == b.to_multiset(),
    ensures
        a == b,
    decreases a.len(),
{
    broadcast use vstd::seq_lib::group_to_multiset_ensures;

    assert(a.len() == b.len()) by {
        vstd::seq_lib::to_multiset_len(a);
        vstd::seq_lib::to_multiset_len(b);
    }
    if a.len() == 0 {
        assert(a =~= b);
    } else {
        assert(a.to_multiset().count(a[0]) > 0);
        assert(b.contains(a[0]));
        let k = choose|k: int| 0 <= k < b.len() && b[k] == a[0];
        assert(b.to_multiset().count(b[0]) > 0);
        assert(a.contains(b[0]));
        let m = choose|m: int| 0 <= m < a.len() && a[m] == b[0];
        assert(a[0].0 <= a[m].0);
        assert(b[0].0 <= b[k].0);
        assert(m == 0);
        vstd::seq_lib::to_multiset_remove(a, 0);
        vstd::seq_lib::to_multiset_remove(b, 0);
        assert(a.remove(0) =~= a.drop_first());
        assert(b.remove(0) =~= b.drop_first());
        let a2 = a.drop_first();
        let b2 = b.drop_first();
        assert forall|i: int, j: int| 0 <= i <= j < a2.len() implies (#[trigger] a2[i]).0 <= (
        #[trigger] a2[j]).0 by {
            assert(a2[i] == a[i + 1] && a2[j] == a[j + 1]);
        }
        assert forall|i: int, j: int| 0 <= i <= j < b2.len() implies (#[trigger] b2[i]).0 <= (
        #[trigger] b2[j]).0 by {
            assert(b2[i] == b[i + 1] && b2[j] == b[j + 1]);
        }
        assert forall|i: int, j: int|
            0 <= i < a2.len() && 0 <= j < a2.len() && i != j implies (#[trigger] a2[i]).0 != (
            #[trigger] a2[j]).0 by {
            assert(a2[i] == a[i + 1] && a2[j] == a[j + 1]);
        }
        lemma_sorted_unique(a2, b2);
        assert forall|i: int| 0 <= i < a.len() implies a[i] == b[i] by {
            if i > 0 {
                assert(a2[i - 1] == a[i] && b2[i - 1] == b[i]);
            }
        }
        assert(a =~= b);
    }
}

/// Envelopes with distinct ticks that are all held leave in one and the same
/// order, whichever order they arrived in.
pub proof fn lemma_arrival_order_irrelevant<T>(
    arrivals: Seq<(u64, T)>,
    reordered: Seq<(u64, T)>,
)
    requires
        distinct_ticks(arrivals),
        reordered.to_multiset() == arrivals.to_multiset(),
    ensures
        enqueue_all(Seq::<(u64, T)>::empty(), arrivals) == enqueue_all(
            Seq::<(u64, T)>::empty(),
            reordered,
        ),
{
    let e = Seq::<(u64, T)>::empty();
    lemma_dispatch_in_tick_order(arrivals, 0);
    lemma_dispatch_in_tick_order(reordered, 0);
    lemma_enqueue_distinct(e, arrivals);
    lemma_sorted_unique(enqueue_all(e, arrivals), enqueue_all(e, reordered));
}

/// Remote events of one type waiting for the replica's applied tick, kept in
/// tick order and, within a tick, in order of arrival.
pub struct EventQueue<T> {
    applied: Option<u64>,
    pending: Vec<(u64, T)>,
    limit: usize,
}

impl<T> EventQueue<T> {
    /// The last tick whose state the replica has fully applied; `None` before
    /// the first state synchronization.
    pub closed spec fn applied_spec(&self) -> Option<u64> {
        self.applied
    }

    /// The held entries, each with the tick it was produced at.
    pub closed spec fn pending_spec(&self) -> Seq<(u64, T)> {
        self.pending@
    }

    /// Above this many held entries the queue reports itself overflowing.
    pub closed spec fn limit_spec(&self) -> usize {
        self.limit
    }

    pub open spec fn wf(&self) -> bool {
        &&& sorted_by_tick(self.pending_spec())
        &&& forall|i: int|
            0 <= i < self.pending_spec().len() ==> !released(
                self.applied_spec(),
                (#[trigger] self.pending_spec()[i]).0,
            )
    }

    /// An empty queue for a replica that has not applied any state yet.
    pub fn new(limit: usize) -> (r: EventQueue<T>)
        ensures
            r.wf(),
            r.applied_spec() is None,
            r.pending_spec() == Seq::<(u64, T)>::empty(),
            r.limit_spec() == limit,
    {
        EventQueue { applied: None, pending: Vec::new(), limit }
    }

    pub fn applied_tick(&self) -> (r: Option<u64>)
        ensures
            r == self.applied_spec(),
    {
        self.applied
    }

    pub fn len(&self) -> (r: usize)
        ensures
            r == self.pending_spec().len(),
    {
        self.pending.len()
    }

    /// Whether more entries are held than the limit allows: the state-sync
    /// path is not keeping up, which the host should report. Nothing is dropped.
    pub fn is_overflowing(&self) -> (r: bool)
        ensures
            r == (self.pending_spec().len() > self.limit_spec()),
    {
        self.pending.len() > self.limit
    }

    /// Takes in an event produced at `tick`. It comes back at once where its
    /// type is independent or its tick has been applied; otherwise it is held.
    pub fn receive(&mut self, tick: u64, event: T, independent: bool) -> (r: Option<T>)
        requires
            old(self).wf(),
        ensures
            final(self).wf(),
            final(self).applied_spec() == old(self).applied_spec(),
            final(self).limit_spec() == old(self).limit_spec(),
            independent || released(old(self).applied_spec(), tick) ==> r == Some(event)
                && final(self).pending_spec() == old(self).pending_spec(),
            !(independent || released(old(self).applied_spec(), tick)) ==> r is None
                && final(self).pending_spec() == insert_by_tick(
                old(self).pending_spec(),
                (tick, event),
            ),
    {
        let ready = match self.applied {
            Some(a) => tick <= a,
            None => false,
        };
        if independent || ready {
            return Some(event);
        }
        let ghost q = self.pending@;
        let mut i: usize = self.pending.len();
        proof {
            assert(q.take(i as int) =~= q);
        }
        while i > 0 && self.pending[i - 1].0 > tick
            invariant
                q == self.pending@,
                i <= q.len(),
                tick_position(q, tick) == tick_position(q.take(i as int), tick),
            decreases i,
        {
            proof {
                assert(q.take(i as int).drop_last() =~= q.take(i - 1));
            }
            i = i - 1;
        }
        proof {
            if i == 0 {
                assert(q.take(0).len() == 0);
            }
            lemma_tick_position(q, tick);
        }
        self.pending.insert(i, (tick, event));
        proof {
            lemma_insert_sorted(q, (tick, event));
            let n = self.pending@;
            assert forall|j: int| 0 <= j < n.len() implies !released(
                self.applied,
                (#[trigger] n[j]).0,
            ) by {
                if j < i {
                    assert(n[j] == q[j]);
                } else if j > i {
                    assert(n[j] == q[j - 1]);
                }
            }
        }
        None
    }

    /// Records that the replica has applied the state of `tick` and hands out,
    /// in order, every held entry whose tick is now applied.
    pub fn advance(&mut self, tick: u64) -> (r: Vec<(u64, T)>)
        requires
            old(self).wf(),
        ensures
            final(self).wf(),
            final(self).applied_spec() == Some(advanced(old(self).applied_spec(), tick)),
            final(self).limit_spec() == old(self).limit_spec(),
            ({
                let k = ready_count(old(self).pending_spec(), advanced(old(self).applied_spec(), tick));
                &&& r@ == old(self).pending_spec().take(k as int)
                &&& final(self).pending_spec() == old(self).pending_spec().skip(k as int)
            }),
    {
        let applied = match self.applied {
            Some(a) => if a >= tick {
                a
            } else {
                tick
            },
            None => tick,
        };
        self.applied = Some(applied);
        let ghost q = self.pending@;
        proof {
            lemma_ready_count(q, applied);
        }
        let mut k: usize = 0;
        while k < self.pending.len() && self.pending[k].0 <= applied
            invariant
                q == self.pending@,
                sorted_by_tick(q),
                k <= ready_count(q, applied),
                ready_count(q, applied) <= q.len(),
                forall|i: int| 0 <= i < q.len() ==> (i < ready_count(q, applied) <==> (
                #[trigger] q[i]).0 <= applied),
            decreases q.len() - k,
        {
            k = k + 1;
        }
        let mut ready = self.pending.split_off(k);
        core::mem::swap(&mut ready, &mut self.pending);
        proof {
            assert(q.subrange(0, k as int) =~= q.take(k as int));
            assert(q.subrange(k as int, q.len() as int) =~= q.skip(k as int));
            let n = self.pending@;
            assert forall|i: int, j: int| 0 <= i <= j < n.len() implies (#[trigger] n[i]).0 <= (
            #[trigger] n[j]).0 by {
                assert(n[i] == q[i + k] && n[j] == q[j + k]);
            }
            assert forall|j: int| 0 <= j < n.len() implies !released(
                self.applied,
                (#[trigger] n[j]).0,
            ) by {
                assert(n[j] == q[j + k]);
            }
        }
        ready
    }
}

} // verus!
