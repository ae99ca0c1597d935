//! The per-target work queue: the pending ports for one target, drained
//! by that target's pool of workers.
//!
//! Concurrent workers share one queue behind a mutual-exclusion lock; the
//! verified content here is the atomic claim step itself. `claim_next`
//! either hands out the most recently seeded pending port and removes
//! exactly that one, or reports the queue empty — so no port is ever
//! claimed twice and none is skipped.
use vstd::prelude::*;

verus! {

/// The pending ports for one target, claimed one at a time.
pub struct WorkQueue {
    ports: Vec<u16>,
}

impl View for WorkQueue {
    type V = Seq<u16>;

    closed spec fn view(&self) -> Seq<u16> {
        self.ports@
    }
}

impl WorkQueue {
    /// Seed a fresh queue with every port of the resolved sequence.
    pub fn new(ports: Vec<u16>) -> (q: Self)
        ensures
            q@ == ports@,
    {
        WorkQueue { ports }
    }

    /// How many ports are still pending.
    pub fn len(&self) -> (n: usize)
        ensures
            n == self@.len(),
    {
        self.ports.len()
    }

    /// Atomically claim one pending port, or observe that the queue is
    /// empty. A claimed port is removed from the queue, so it can never
    /// be handed to a second worker.
    pub fn claim_next(&mut self) -> (r: Option<u16>)
        ensures
            old(self)@.len() == 0 ==> r is None && final(self)@ == old(self)@,
            old(self)@.len() > 0 ==> {
                &&& r == Some(old(self)@.last())
                &&& final(self)@ == old(self)@.drop_last()
                &&& old(self)@.to_multiset() == final(self)@.to_multiset().insert(r->0)
            },
    {
        let r = self.ports.pop();
        proof {
            if old(self)@.len() > 0 {
                broadcast use vstd::seq_lib::group_seq_lib_default;

                assert(old(self)@ =~= final(self)@.push(old(self)@.last()));
                final(self)@.to_multiset_ensures();
                assert(old(self)@.to_multiset() =~= final(self)@.to_multiset().insert(
                    old(self)@.last(),
                ));
            }
        }
        r
    }

    /// Claim every pending port in turn until the queue is empty,
    /// returning the claims in claim order. This is the drain a single
    /// worker performs; a pool of workers interleaves the same
    /// `claim_next` steps, and each port still leaves the queue exactly
    /// once.
    pub fn drain(&mut self) -> (claims: Vec<u16>)
        ensures
            final(self)@.len() == 0,
            claims@ == old(self)@.reverse(),
            claims@.to_multiset() == old(self)@.to_multiset(),
    {
        let ghost orig = self@;
        let mut claims: Vec<u16> = Vec::new();
        loop
            invariant_except_break
                claims@.len() <= orig.len(),
                self@ == orig.take(orig.len() - claims@.len()),
                claims@ == orig.reverse().take(claims@.len() as int),
            ensures
                self@.len() == 0,
                claims@ == orig.reverse(),
            decreases self@.len(),
        {
            let ghost k = claims@.len() as int;
            match self.claim_next() {
                Some(p) => {
                    proof {
                        assert(orig.take(orig.len() - k).last() == orig[orig.len() - 1 - k]);
                        assert(orig.take(orig.len() - k).drop_last() =~= orig.take(
                            orig.len() - (k + 1),
                        ));
                        assert(orig.reverse()[k] == orig[orig.len() - 1 - k]);
                    }
                    claims.push(p);
                    proof {
                        assert(claims@ =~= orig.reverse().take(k + 1));
                    }
                },
                None => {
                    proof {
                        assert(claims@ =~= orig.reverse());
                    }
                    break ;
                },
            }
        }
        proof {
            lemma_full_drain_claims_each_port_once(orig);
        }
        claims
    }
}

/// With any number of workers, every seeded port is claimed exactly
/// once over a full drain: the claims — most recently seeded first —
/// carry exactly the multiset the queue was seeded with, so no port is
/// probed twice and none is skipped.
pub proof fn lemma_full_drain_claims_each_port_once(s: Seq<u16>)
    ensures
        s.reverse().to_multiset() == s.to_multiset(),
    decreases s.len(),
{
    if s.len() == 0 {
        assert(s.reverse() =~= s);
    } else {
        let d = s.drop_first();
        lemma_full_drain_claims_each_port_once(d);
        assert(s.reverse() =~= d.reverse().push(s[0]));
        d.reverse().to_multiset_ensures();
        s.to_multiset_ensures();
        assert(s.remove(0) =~= d);
        assert(s.contains(s[0]));
        assert(s.to_multiset().remove(s[0]).insert(s[0]) =~= s.to_multiset());
        assert(s.reverse().to_multiset() =~= s.to_multiset());
    }
}

} // verus!
