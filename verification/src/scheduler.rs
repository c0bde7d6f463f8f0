//! The sweep side of the scheduler: which drawings a wake cycle detaches,
//! and how long to sleep until the next whole-minute boundary.
//!
//! The enclosing loop — sleep, wake, sweep, resolve each detached drawing
//! outside the lock — performs timing and platform calls and therefore
//! lives outside the verified library; it feeds the current time into the
//! two functions here.

use vstd::prelude::*;
use vstd::seq_lib::group_to_multiset_ensures;

use crate::giveaway::{Giveaway, GiveawayModel};
use crate::store::{contains_id, models, InnerState};

verus! {

/// A drawing is expired when it has a deadline that is not in the future.
pub open spec fn expired(g: GiveawayModel, now: i64) -> bool {
    g.time matches Some(t) && t <= now
}

/// Detaching the entry at `i` by a swap with the last entry takes exactly
/// one occurrence of its model out of the store's multiset.
pub proof fn lemma_swap_remove_multiset(s: Seq<GiveawayModel>, i: int)
    requires
        0 <= i < s.len(),
    ensures
        s.update(i, s.last()).drop_last().to_multiset() == s.to_multiset().remove(s[i]),
{
    broadcast use group_to_multiset_ensures;

    let u = s.update(i, s.last());
    assert(u.drop_last() == u.remove(u.len() - 1));
    assert(u.remove(u.len() - 1).to_multiset() == u.to_multiset().remove(u[u.len() - 1]));
    if i < s.len() - 1 {
        assert(u[u.len() - 1] == s.last());
        assert(u.to_multiset() == s.to_multiset().insert(s.last()).remove(s[i]));
        assert(s.to_multiset().insert(s.last()).remove(s[i]).remove(s.last()) =~= s.to_multiset()
            .remove(s[i]));
    } else {
        assert(u =~= s);
        assert(u[u.len() - 1] == s[i]);
    }
}

impl InnerState {
    /// One sweep: detaches and returns every expired drawing, leaving
    /// exactly the unexpired ones behind. Each detached drawing leaves
    /// the store the moment it is returned, so even if the same deadline
    /// passes for many drawings in one tick, none can be handed out (and
    /// hence resolved) twice.
    pub fn take_expired(&mut self, now: i64) -> (r: Vec<Giveaway>)
        requires
            old(self).wf(),
        ensures
            final(self).wf(),
            forall|i: int|
                0 <= i < r@.len() ==> expired((#[trigger] r@[i])@, now) && r@[i]@.wf(),
            forall|i: int|
                0 <= i < final(self)@.len() ==> !expired(#[trigger] final(self)@[i], now),
            old(self)@.to_multiset() == final(self)@.to_multiset().add(
                models(r@).to_multiset(),
            ),
            forall|id: u32| contains_id(final(self)@, id) ==> contains_id(old(self)@, id),
            forall|i: int|
                0 <= i < old(self)@.len() && expired(#[trigger] old(self)@[i], now) ==> models(
                    r@,
                ).to_multiset().count(old(self)@[i]) > 0,
    {
        broadcast use group_to_multiset_ensures;

        let mut taken: Vec<Giveaway> = Vec::new();
        let mut i: usize = 0;
        while i < self.giveaways.len()
            invariant
                i <= self.giveaways.len(),
                self.wf(),
                forall|j: int| 0 <= j < i ==> !expired(#[trigger] self@[j], now),
                forall|j: int|
                    0 <= j < taken@.len() ==> expired((#[trigger] taken@[j])@, now)
                        && taken@[j]@.wf(),
                old(self)@.to_multiset() == self@.to_multiset().add(
                    models(taken@).to_multiset(),
                ),
                forall|id: u32| contains_id(self@, id) ==> contains_id(old(self)@, id),
            decreases self.giveaways.len() - i,
        {
            let is_expired = match self.giveaways[i].time {
                Some(t) => t <= now,
                None => false,
            };
            if is_expired {
                let ghost old_view = self@;
                let ghost old_taken = models(taken@);
                let g = self.giveaways.swap_remove(i);
                taken.push(g);
                proof {
                    broadcast use vstd::multiset::group_multiset_axioms;

                    let g_model = g@;
                    assert(self@ =~= old_view.update(i as int, old_view.last()).drop_last());
                    crate::store::lemma_swap_remove_keeps(old_view, i as int);
                    lemma_swap_remove_multiset(old_view, i as int);
                    assert(self@.to_multiset() == old_view.to_multiset().remove(g_model));
                    assert(models(taken@) =~= old_taken.push(g_model));
                    vstd::seq_lib::to_multiset_build(old_taken, g_model);
                    assert(old_taken.push(g_model).to_multiset() =~= old_taken.to_multiset()
                        .insert(g_model));
                    assert(old_view[i as int] == g_model);
                    assert(old_view.contains(g_model));
                    old_view.to_multiset_ensures();
                    assert(old_view.to_multiset().count(g_model) > 0);
                    assert forall|x: GiveawayModel|
                        old(self)@.to_multiset().count(x) == self@.to_multiset().add(
                            models(taken@).to_multiset(),
                        ).count(x) by {
                        assert(old(self)@.to_multiset().count(x) == old_view.to_multiset().count(x)
                            + old_taken.to_multiset().count(x));
                    }
                    assert(old(self)@.to_multiset() =~= self@.to_multiset().add(
                        models(taken@).to_multiset(),
                    ));
                }
            } else {
                i += 1;
            }
        }
        proof {
            assert forall|j: int|
                0 <= j < old(self)@.len() && expired(#[trigger] old(self)@[j], now) implies models(
                taken@,
            ).to_multiset().count(old(self)@[j]) > 0 by {
                let g = old(self)@[j];
                assert(old(self)@.to_multiset().count(g) > 0);
                if self@.to_multiset().count(g) > 0 {
                    let k = choose|k: int| 0 <= k < self@.len() && self@[k] == g;
                    assert(!expired(self@[k], now));
                }
            }
        }
        taken
    }

    /// Convenience check used by callers that only want to know whether a
    /// sweep would find anything.
    pub fn has_expired(&self, now: i64) -> (r: bool)
        ensures
            r <==> exists|i: int| 0 <= i < self@.len() && expired(#[trigger] self@[i], now),
    {
        let mut i: usize = 0;
        while i < self.giveaways.len()
            invariant
                i <= self.giveaways.len(),
                forall|j: int| 0 <= j < i ==> !expired(#[trigger] self@[j], now),
            decreases self.giveaways.len() - i,
        {
            let is_expired = match self.giveaways[i].time {
                Some(t) => t <= now,
                None => false,
            };
            if is_expired {
                assert(expired(self@[i as int], now));
                return true;
            }
            i += 1;
        }
        false
    }
}

/// Seconds to sleep from `now` until the next whole-minute boundary:
/// always between one and a full minute, and waking after exactly that
/// delay lands on a minute boundary.
pub fn next_wake_delay(now: i64) -> (d: u64)
    requires
        0 <= now,
    ensures
        1 <= d <= 60,
        (now as int + d as int) % 60 == 0,
{
    let r = now % 60;
    (60 - r) as u64
}

} // verus!
