//! The membership tracker: applies opt-in and opt-out reaction events to
//! the participant set of the drawing they announce.
//!
//! Events arrive asynchronously and unordered relative to creation and
//! resolution; an event whose message no longer announces any active
//! drawing is a silent no-op, which is correct because a resolved drawing
//! is already gone.

use vstd::prelude::*;

use crate::giveaway::GiveawayModel;
use crate::store::InnerState;

verus! {

/// `i` is the first position of `s` announced by `message`.
pub open spec fn first_message_match(s: Seq<GiveawayModel>, message: u64, i: int) -> bool {
    &&& 0 <= i < s.len()
    &&& s[i].message == message
    &&& forall|j: int| 0 <= j < i ==> (#[trigger] s[j]).message != message
}

/// `j` is the first position of `user` in the participant row `users`.
pub open spec fn first_user_match(users: Seq<u64>, user: u64, j: int) -> bool {
    &&& 0 <= j < users.len()
    &&& users[j] == user
    &&& forall|k: int| 0 <= k < j ==> users[k] != user
}

/// The model of `s` after the drawing at `i` got the participant row `users`.
pub open spec fn with_users(s: Seq<GiveawayModel>, i: int, users: Seq<u64>) -> Seq<GiveawayModel> {
    s.update(i, GiveawayModel { users, ..s[i] })
}

/// Scan for the first occurrence of `user` in a participant row.
fn position_of_user(v: &Vec<u64>, user: u64) -> (r: Option<usize>)
    ensures
        r matches Some(j) ==> first_user_match(v@, user, j as int),
        r is None <==> !v@.contains(user),
{
    let mut j: usize = 0;
    while j < v.len()
        invariant
            j <= v.len(),
            forall|k: int| 0 <= k < j ==> v@[k] != user,
        decreases v.len() - j,
    {
        if v[j] == user {
            return Some(j);
        }
        j += 1;
    }
    None
}

impl InnerState {
    /// A user opted in: if `message` announces an active drawing and the
    /// symbol is that drawing's, the user is appended to its participants;
    /// any other event leaves the store untouched. Repeated joins may
    /// repeat a user; opting out removes one occurrence.
    pub fn handle_reaction_add(&mut self, message: u64, emoji: char, user: u64)
        requires
            old(self).wf(),
        ensures
            final(self).wf(),
            !crate::store::contains_message(old(self)@, message) ==> final(self)@ == old(self)@,
            forall|i: int|
                first_message_match(old(self)@, message, i) ==> if old(self)@[i].emoji != emoji {
                    final(self)@ == old(self)@
                } else {
                    final(self)@ == with_users(old(self)@, i, old(self)@[i].users.push(user))
                },
    {
        let mut i: usize = 0;
        while i < self.giveaways.len()
            invariant
                i <= self.giveaways.len(),
                forall|j: int| 0 <= j < i ==> (#[trigger] self@[j]).message != message,
                self.wf(),
                self@ == old(self)@,
            decreases self.giveaways.len() - i,
        {
            if self.giveaways[i].message == message {
                if self.giveaways[i].emoji == emoji {
                    let mut g = self.giveaways[i].duplicate();
                    g.users.push(user);
                    let ghost old_view = self@;
                    self.giveaways[i] = g;
                    proof {
                        assert(self@ =~= with_users(old_view, i as int, old_view[i as int].users.push(user)));
                        lemma_with_users_keeps(old_view, i as int, old_view[i as int].users.push(user));
                    }
                }
                return ;
            }
            i += 1;
        }
    }

    /// A user opted out: if `message` announces an active drawing and the
    /// symbol is that drawing's, one occurrence of the user leaves its
    /// participants (the first, swapped with the last entry); an absent
    /// user, a foreign symbol, or an unknown message is a no-op.
    pub fn handle_reaction_remove(&mut self, message: u64, emoji: char, user: u64)
        requires
            old(self).wf(),
        ensures
            final(self).wf(),
            !crate::store::contains_message(old(self)@, message) ==> final(self)@ == old(self)@,
            forall|i: int|
                first_message_match(old(self)@, message, i) ==> if old(self)@[i].emoji != emoji
                    || !old(self)@[i].users.contains(user) {
                    final(self)@ == old(self)@
                } else {
                    forall|j: int|
                        first_user_match(old(self)@[i].users, user, j) ==> final(self)@
                            == with_users(
                            old(self)@,
                            i,
                            old(self)@[i].users.update(j, old(self)@[i].users.last()).drop_last(),
                        )
                },
    {
        let mut i: usize = 0;
        while i < self.giveaways.len()
            invariant
                i <= self.giveaways.len(),
                forall|j: int| 0 <= j < i ==> (#[trigger] self@[j]).message != message,
                self.wf(),
                self@ == old(self)@,
            decreases self.giveaways.len() - i,
        {
            if self.giveaways[i].message == message {
                if self.giveaways[i].emoji == emoji {
                    let mut g = self.giveaways[i].duplicate();
                    if let Some(j) = position_of_user(&g.users, user) {
                        g.users.swap_remove(j);
                        let ghost old_view = self@;
                        let ghost new_users = old_view[i as int].users.update(
                            j as int,
                            old_view[i as int].users.last(),
                        ).drop_last();
                        self.giveaways[i] = g;
                        proof {
                            assert(self@ =~= with_users(old_view, i as int, new_users));
                            lemma_with_users_keeps(old_view, i as int, new_users);
                        }
                    }
                }
                return ;
            }
            i += 1;
        }
    }
}

/// Replacing only the participant row of one drawing keeps the store
/// invariant: identifiers and every other field stay as they were.
pub proof fn lemma_with_users_keeps(s: Seq<GiveawayModel>, i: int, users: Seq<u64>)
    requires
        0 <= i < s.len(),
        crate::store::all_wf(s),
        crate::store::distinct_ids(s),
    ensures
        crate::store::all_wf(with_users(s, i, users)),
        crate::store::distinct_ids(with_users(s, i, users)),
{
    let t = with_users(s, i, users);
    assert(forall|j: int| 0 <= j < t.len() ==> (#[trigger] t[j]).id == s[j].id);
    assert forall|j: int| 0 <= j < t.len() implies (#[trigger] t[j]).wf() by {
        assert(s[j].wf());
    }
}

} // verus!
