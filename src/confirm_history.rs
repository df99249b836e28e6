//! Which authoritative ticks a replica has confirmed, over a recent window.

use vstd::prelude::*;

verus! {

/// How many ticks back from the latest confirmed one are remembered.
pub const WINDOW: u64 = 64;

/// `tick` lies in the window that ends at `last`.
pub open spec fn in_window(last: u64, tick: u64) -> bool {
    tick <= last && last - tick < WINDOW
}

/// Bit `k` of `mask` is set.
pub open spec fn bit_set(mask: u64, k: u64) -> bool {
    (mask >> k) & 1 == 1
}

proof fn lemma_bit_of_one(k: u64)
    requires
        k < 64,
    ensures
        bit_set(1, k) <==> k == 0,
{
    assert(((1u64 >> k) & 1 == 1) <==> k == 0) by (bit_vector)
        requires
            k < 64,
    ;
}

proof fn lemma_bit_of_shifted(mask: u64, d: u64, k: u64)
    requires
        d < 64,
        k < 64,
    ensures
        bit_set((mask << d) | 1, k) <==> (k == 0 || (k >= d && bit_set(mask, (k - d) as u64))),
{
    assert((((mask << d) | 1) >> k) & 1 == 1 <==> (k == 0 || (k >= d && (mask >> ((k - d) as u64))
        & 1 == 1))) by (bit_vector)
        requires
            d < 64,
            k < 64,
    ;
}

proof fn lemma_bit_of_added(mask: u64, a: u64, k: u64)
    requires
        a < 64,
        k < 64,
    ensures
        bit_set(mask | (1u64 << a), k) <==> (bit_set(mask, k) || k == a),
{
    assert(((mask | (1u64 << a)) >> k) & 1 == 1 <==> ((mask >> k) & 1 == 1 || k == a))
        by (bit_vector)
        requires
            a < 64,
            k < 64,
    ;
}

/// The ticks one replica has confirmed. Ticks may be confirmed in any order;
/// only the last `WINDOW` ticks up to the latest confirmed one are kept, and
/// older ones count as not confirmed.
pub struct ConfirmHistory {
    last: Option<u64>,
    mask: u64,
}

impl ConfirmHistory {
    /// The latest tick confirmed so far.
    pub closed spec fn last_spec(&self) -> Option<u64> {
        self.last
    }

    /// Whether `tick` counts as confirmed.
    pub closed spec fn confirmed(&self, tick: u64) -> bool {
        match self.last {
            Some(last) => in_window(last, tick) && bit_set(self.mask, (last - tick) as u64),
            None => false,
        }
    }

    pub fn new() -> (r: ConfirmHistory)
        ensures
            r.last_spec() is None,
            forall|t: u64| !r.confirmed(t),
    {
        ConfirmHistory { last: None, mask: 0 }
    }

    pub fn last_tick(&self) -> (r: Option<u64>)
        ensures
            r == self.last_spec(),
    {
        self.last
    }

    pub fn contains(&self, tick: u64) -> (r: bool)
        ensures
            r == self.confirmed(tick),
    {
        match self.last {
            Some(last) => tick <= last && last - tick < WINDOW && (self.mask >> (last - tick)) & 1
                == 1,
            None => false,
        }
    }

    /// Marks `tick` as fully received by the replica.
    pub fn confirm(&mut self, tick: u64)
        ensures
            final(self).last_spec() == Some(
                match old(self).last_spec() {
                    Some(last) => if last >= tick {
                        last
                    } else {
                        tick
                    },
                    None => tick,
                },
            ),
            forall|t: u64|
                #[trigger] final(self).confirmed(t) == (in_window(
                    final(self).last_spec()->Some_0,
                    t,
                ) && (old(self).confirmed(t) || t == tick)),
    {
        match self.last {
            None => {
                self.last = Some(tick);
                self.mask = 1;
                proof {
                    assert forall|t: u64| #[trigger]
                        self.confirmed(t) == (in_window(tick, t) && (old(self).confirmed(t) || t
                            == tick)) by {
                        if in_window(tick, t) {
                            lemma_bit_of_one((tick - t) as u64);
                        }
                    }
                }
            },
            Some(last) => {
                if tick > last {
                    let d = tick - last;
                    if d >= WINDOW {
                        self.mask = 1;
                    } else {
                        self.mask = (self.mask << d) | 1;
                    }
                    self.last = Some(tick);
                    proof {
                        let m = old(self).mask;
                        assert forall|t: u64| #[trigger]
                            self.confirmed(t) == (in_window(tick, t) && (old(self).confirmed(t)
                                || t == tick)) by {
                            if in_window(tick, t) {
                                let k = (tick - t) as u64;
                                if d >= WINDOW {
                                    lemma_bit_of_one(k);
                                } else {
                                    lemma_bit_of_shifted(m, d, k);
                                    if k >= d {
                                        assert((k - d) as u64 == (last - t) as u64);
                                    }
                                }
                            }
                        }
                    }
                } else {
                    let a = last - tick;
                    if a < WINDOW {
                        self.mask = self.mask | (1u64 << a);
                    }
                    proof {
                        let m = old(self).mask;
                        assert forall|t: u64| #[trigger]
                            self.confirmed(t) == (in_window(last, t) && (old(self).confirmed(t)
                                || t == tick)) by {
                            if in_window(last, t) && a < WINDOW {
                                lemma_bit_of_added(m, a, (last - t) as u64);
                            }
                        }
                    }
                }
            },
        }
    }
}

} // verus!
