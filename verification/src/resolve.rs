//! The resolution engine: draws winners from an already-detached drawing,
//! or records its cancellation.
//!
//! Both operations are terminal and take the drawing by value: the caller
//! must have detached it from the store first, which is what makes a
//! drawing resolvable at most once. Deleting the old announcement and
//! posting the outcome are platform calls and happen outside the library,
//! fed from the returned record.

use vstd::prelude::*;
use vstd::seq_lib::{lemma_multiset_commutative, to_multiset_update};

use crate::giveaway::{Giveaway, GiveawayId};

verus! {

/// Terminal outcome of resolving a drawing.
#[derive(Debug)]
pub enum Outcome {
    /// Nobody had opted in when the drawing resolved.
    NoParticipants { id: GiveawayId, title: String, channel: u64, announcement: u64 },
    /// The winners, in drawn order, numbered from the front when the
    /// outcome is announced.
    Winners {
        id: GiveawayId,
        title: String,
        channel: u64,
        announcement: u64,
        winners: Vec<u64>,
    },
}

/// Record of a cancelled drawing, naming who cancelled it.
#[derive(Debug)]
pub struct CancelNotice {
    pub id: GiveawayId,
    pub title: String,
    pub channel: u64,
    pub announcement: u64,
    pub actor: u64,
}

/// Relies on rand's thread_rng and Rng::gen_range: a uniform value in
/// `lo..hi`; the range is checked non-empty, so gen_range cannot panic.
#[verifier::external_body]
fn random_below(lo: usize, hi: usize) -> (r: usize)
    requires
        lo < hi,
    ensures
        lo <= r < hi,
{
    rand::Rng::gen_range(&mut rand::thread_rng(), lo..hi)
}

/// Swapping two entries of a row leaves its multiset of entries as it was.
pub proof fn lemma_swap_multiset(s: Seq<u64>, i: int, j: int)
    requires
        0 <= i < s.len(),
        0 <= j < s.len(),
    ensures
        s.update(i, s[j]).update(j, s[i]).to_multiset() == s.to_multiset(),
{
    broadcast use vstd::multiset::group_multiset_axioms;

    let t = s.update(i, s[j]).update(j, s[i]);
    if i == j {
        assert(t =~= s);
    } else {
        let u = s.update(i, s[j]);
        to_multiset_update(s, i, s[j]);
        to_multiset_update(u, j, s[i]);
        s.to_multiset_ensures();
        u.to_multiset_ensures();
        assert(u[j] == s[j]);
        assert(s.contains(s[i]));
        assert(s.to_multiset().count(s[i]) > 0);
        assert(u.contains(u[j]));
        assert(u.to_multiset().count(s[j]) > 0);
        assert forall|x: u64| t.to_multiset().count(x) == s.to_multiset().count(x) by {
            assert(u.to_multiset().count(x) == s.to_multiset().insert(s[j]).remove(s[i]).count(x));
            assert(t.to_multiset().count(x) == u.to_multiset().insert(s[i]).remove(s[j]).count(x));
        }
        assert(t.to_multiset() =~= s.to_multiset());
    }
}

/// The first `k` entries of a row carry no entry more often than the
/// whole row does.
pub proof fn lemma_take_submultiset(s: Seq<u64>, k: int)
    requires
        0 <= k <= s.len(),
    ensures
        s.take(k).to_multiset().subset_of(s.to_multiset()),
{
    broadcast use vstd::multiset::group_multiset_axioms;

    assert(s =~= s.take(k) + s.skip(k));
    lemma_multiset_commutative(s.take(k), s.skip(k));
    assert forall|x: u64|
        s.take(k).to_multiset().count(x) <= s.to_multiset().count(x) by {
        assert(s.to_multiset().count(x) == s.take(k).to_multiset().count(x) + s.skip(
            k,
        ).to_multiset().count(x));
    }
}

/// When the participant row has no duplicate entries, the drawn winners
/// are pairwise distinct: nobody can be drawn twice.
pub proof fn lemma_winners_distinct(winners: Seq<u64>, users: Seq<u64>)
    requires
        users.no_duplicates(),
        winners.to_multiset().subset_of(users.to_multiset()),
    ensures
        winners.no_duplicates(),
{
    broadcast use vstd::multiset::group_multiset_axioms;

    users.lemma_multiset_has_no_duplicates();
    winners.to_multiset_ensures();
    users.to_multiset_ensures();
    assert forall|x: u64| winners.to_multiset().contains(x) implies winners.to_multiset().count(x)
        == 1 by {
        assert(winners.to_multiset().count(x) <= users.to_multiset().count(x));
        assert(users.to_multiset().count(x) > 0);
        assert(users.to_multiset().count(x) == 1);
    }
    winners.lemma_multiset_has_no_duplicates_conv();
}

impl Giveaway {
    /// Resolves the drawing: draws `min(winner_count, participants)`
    /// winners without replacement — a partial Fisher–Yates shuffle, each
    /// slot filled by a uniform draw from the remaining entries — or
    /// reports explicitly that nobody participated. No entry of the
    /// participant row is drawn more often than it occurs in the row.
    pub fn finish(self) -> (r: Outcome)
        requires
            self.wf(),
        ensures
            (r matches Outcome::NoParticipants { .. }) <==> self.users@.len() == 0,
            r matches Outcome::NoParticipants { id, title, channel, announcement } ==> id
                == self.id && title@ == self.title@ && channel == self.channel && announcement
                == self.message,
            r matches Outcome::Winners { id, title, channel, announcement, winners } ==> {
                &&& id == self.id
                &&& title@ == self.title@
                &&& channel == self.channel
                &&& announcement == self.message
                &&& winners@.len() == vstd::math::min(
                    self.winner_count as int,
                    self.users@.len() as int,
                )
                &&& winners@.len() >= 1
                &&& winners@.to_multiset().subset_of(self.users@.to_multiset())
                &&& forall|w: int|
                    0 <= w < winners@.len() ==> self.users@.contains(#[trigger] winners@[w])
            },
    {
        let Giveaway { title, message, channel, emoji: _, guild: _, time: _, users, winner_count, id } =
            self;
        let mut pool = users;
        let n = pool.len();
        if n == 0 {
            return Outcome::NoParticipants { id, title, channel, announcement: message };
        }
        let k = if (winner_count as usize) < n {
            winner_count as usize
        } else {
            n
        };
        let ghost orig = pool@;
        let mut i: usize = 0;
        while i < k
            invariant
                i <= k <= n,
                n == pool@.len(),
                pool@.to_multiset() == orig.to_multiset(),
            decreases k - i,
        {
            let j = random_below(i, n);
            let a = pool[i];
            let b = pool[j];
            let ghost before = pool@;
            pool[i] = b;
            pool[j] = a;
            proof {
                assert(pool@ == before.update(i as int, before[j as int]).update(
                    j as int,
                    before[i as int],
                ));
                lemma_swap_multiset(before, i as int, j as int);
            }
            i += 1;
        }
        let mut winners: Vec<u64> = Vec::new();
        let mut t: usize = 0;
        while t < k
            invariant
                t <= k <= n,
                n == pool@.len(),
                pool@.to_multiset() == orig.to_multiset(),
                winners@ == pool@.take(t as int),
            decreases k - t,
        {
            let w = pool[t];
            winners.push(w);
            proof {
                assert(winners@ =~= pool@.take(t as int + 1));
            }
            t += 1;
        }
        proof {
            lemma_take_submultiset(pool@, k as int);
            broadcast use vstd::multiset::group_multiset_axioms;

            assert forall|x: u64|
                winners@.to_multiset().count(x) <= orig.to_multiset().count(x) by {
                assert(winners@.to_multiset().count(x) <= pool@.to_multiset().count(x));
            }
            winners@.to_multiset_ensures();
            orig.to_multiset_ensures();
            assert forall|w: int| 0 <= w < winners@.len() implies orig.contains(
                #[trigger] winners@[w],
            ) by {
                assert(winners@.to_multiset().count(winners@[w]) > 0);
                assert(orig.to_multiset().count(winners@[w]) > 0);
            }
        }
        Outcome::Winners { id, title, channel, announcement: message, winners }
    }

    /// Cancels the drawing: no sampling, only the record from which the
    /// cancellation notice naming `actor` and the drawing's id is posted.
    pub fn cancel(self, actor: u64) -> (r: CancelNotice)
        ensures
            r.id == self.id,
            r.title@ == self.title@,
            r.channel == self.channel,
            r.announcement == self.message,
            r.actor == actor,
    {
        let Giveaway { title, message, channel, id, .. } = self;
        CancelNotice { id, title, channel, announcement: message, actor }
    }
}

} // verus!
