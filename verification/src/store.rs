//! The drawing store: the single source of truth for active drawings.
//!
//! `InnerState` holds the unordered collection of all currently active
//! drawings (the active set). It is the unit of locking and the unit of
//! persistence; every mutation below keeps its invariant: all drawings
//! well formed, ids pairwise distinct.

use vstd::prelude::*;

use crate::giveaway::{Draft, Giveaway, GiveawayError, GiveawayId, GiveawayModel};
use crate::giveaway::{draft_model, draft_valid};

verus! {

/// Retry cap of the identifier generator; a collision survives this many
/// redraws only with operationally impossible probability.
pub const ID_RETRY_CAP: u32 = 1000;

/// True when some drawing in `s` carries the identifier `id`.
pub open spec fn contains_id(s: Seq<GiveawayModel>, id: u32) -> bool {
    exists|i: int| 0 <= i < s.len() && s[i].id == id
}

/// True when some drawing in `s` is announced by the message `message`.
pub open spec fn contains_message(s: Seq<GiveawayModel>, message: u64) -> bool {
    exists|i: int| 0 <= i < s.len() && s[i].message == message
}

/// Every drawing in `s` is well formed.
pub open spec fn all_wf(s: Seq<GiveawayModel>) -> bool {
    forall|i: int| 0 <= i < s.len() ==> (#[trigger] s[i]).wf()
}

/// No identifier is carried by two drawings of `s`.
pub open spec fn distinct_ids(s: Seq<GiveawayModel>) -> bool {
    forall|i: int, j: int| 0 <= i < j < s.len() ==> #[trigger] s[i].id != #[trigger] s[j].id
}

/// Detaching the drawing at `i` by a swap with the last entry keeps the
/// store invariant, frees exactly the detached identifier, and leaves
/// every other identifier active.
pub proof fn lemma_swap_remove_keeps(s: Seq<GiveawayModel>, i: int)
    requires
        0 <= i < s.len(),
        all_wf(s),
        distinct_ids(s),
    ensures
        ({
            let t = s.update(i, s.last()).drop_last();
            &&& all_wf(t)
            &&& distinct_ids(t)
            &&& !contains_id(t, s[i].id)
            &&& forall|o: u32|
                o != s[i].id ==> (contains_id(t, o) <==> contains_id(s, o))
        }),
{
    let t = s.update(i, s.last()).drop_last();
    let n = s.len() as int;
    assert(forall|j: int|
        0 <= j < t.len() ==> t[j] == (if j == i {
            s[n - 1]
        } else {
            s[j]
        }));
    assert forall|o: u32| o != s[i].id && contains_id(s, o) implies contains_id(t, o) by {
        let k = choose|k: int| 0 <= k < s.len() && s[k].id == o;
        if k == n - 1 {
            assert(k != i);
            assert(t[i].id == o);
        } else if k != i {
            assert(t[k].id == o);
        }
    }
    assert forall|o: u32| contains_id(t, o) implies contains_id(s, o) by {
        let k = choose|k: int| 0 <= k < t.len() && t[k].id == o;
        if k == i {
            assert(s[n - 1].id == o);
        } else {
            assert(s[k].id == o);
        }
    }
    assert forall|j: int| 0 <= j < t.len() implies !(t[j].id == s[i].id) by {
        if j == i {
            assert(t[j] == s[n - 1]);
        } else {
            assert(t[j] == s[j]);
        }
    }
    assert forall|j1: int, j2: int| 0 <= j1 < j2 < t.len() implies t[j1].id != t[j2].id by {
        if j1 == i {
            assert(t[j1] == s[n - 1] && t[j2] == s[j2]);
        } else if j2 == i {
            assert(t[j1] == s[j1] && t[j2] == s[n - 1]);
        } else {
            assert(t[j1] == s[j1] && t[j2] == s[j2]);
        }
    }
}

/// The store invariant, in words: among currently active drawings the
/// identifiers are pairwise distinct and never zero, however many
/// creations and removals led to the current state.
pub proof fn lemma_active_ids_distinct(s: InnerState)
    requires
        s.wf(),
    ensures
        forall|i: int| 0 <= i < s@.len() ==> (#[trigger] s@[i]).id != 0,
        forall|i: int, j: int|
            0 <= i < j < s@.len() ==> #[trigger] s@[i].id != #[trigger] s@[j].id,
{
    assert forall|i: int| 0 <= i < s@.len() implies (#[trigger] s@[i]).id != 0 by {
        assert(s@[i].wf());
    }
}

/// The models of a row of drawings.
pub open spec fn models(v: Seq<Giveaway>) -> Seq<GiveawayModel> {
    v.map_values(|g: Giveaway| g@)
}

/// The complete collection of currently active drawings.
#[derive(Debug)]
pub struct InnerState {
    pub giveaways: Vec<Giveaway>,
}

impl View for InnerState {
    type V = Seq<GiveawayModel>;

    open spec fn view(&self) -> Seq<GiveawayModel> {
        self.giveaways@.map_values(|g: Giveaway| g@)
    }
}

impl InnerState {
    /// Invariant of the whole store: every drawing is well formed and no
    /// identifier is carried by two active drawings.
    pub open spec fn wf(self) -> bool {
        all_wf(self@) && distinct_ids(self@)
    }

    /// An empty store, as used when no snapshot exists yet.
    pub fn new() -> (r: InnerState)
        ensures
            r@ == Seq::<GiveawayModel>::empty(),
            r.wf(),
    {
        let r = InnerState { giveaways: Vec::new() };
        proof {
            assert(r@ =~= Seq::<GiveawayModel>::empty());
        }
        r
    }

    /// Linear scan for an identifier; there is no secondary index because
    /// realistic active counts are small.
    fn position_of_id(&self, id: u32) -> (r: Option<usize>)
        ensures
            r matches Some(i) ==> i < self@.len() && self@[i as int].id == id,
            r is None <==> !contains_id(self@, id),
    {
        let mut i: usize = 0;
        while i < self.giveaways.len()
            invariant
                i <= self.giveaways.len(),
                forall|j: int| 0 <= j < i ==> self@[j].id != id,
            decreases self.giveaways.len() - i,
        {
            if self.giveaways[i].id.0 == id {
                return Some(i);
            }
            i += 1;
        }
        None
    }

    /// True when no active drawing is announced by `message`: what a
    /// caller owes `create`, which keeps announcement references unique
    /// so that a reaction event targets one drawing at most.
    pub fn message_is_free(&self, message: u64) -> (r: bool)
        ensures
            r <==> !contains_message(self@, message),
    {
        let mut i: usize = 0;
        while i < self.giveaways.len()
            invariant
                i <= self.giveaways.len(),
                forall|j: int| 0 <= j < i ==> (#[trigger] self@[j]).message != message,
            decreases self.giveaways.len() - i,
        {
            if self.giveaways[i].message == message {
                assert(self@[i as int].message == message);
                return false;
            }
            i += 1;
        }
        true
    }

    /// True when `id` is not zero and no active drawing carries it: the
    /// acceptance test of the identifier generator.
    pub fn id_is_free(&self, id: GiveawayId) -> (r: bool)
        ensures
            r <==> (id.0 != 0 && !contains_id(self@, id.0)),
    {
        if id.0 == 0 {
            return false;
        }
        self.position_of_id(id.0).is_none()
    }

    /// The deterministic half of the identifier generator: scans a row of
    /// candidate identifiers and accepts the first one that is non-zero
    /// and not already active. Rejected candidates are exactly the
    /// collisions (and zeros) before the accepted one.
    pub fn first_fresh(&self, candidates: &Vec<GiveawayId>) -> (r: Option<(usize, GiveawayId)>)
        ensures
            r matches Some(p) ==> {
                &&& p.0 < candidates@.len()
                &&& candidates@[p.0 as int] == p.1
                &&& p.1.0 != 0
                &&& !contains_id(self@, p.1.0)
                &&& forall|j: int|
                    0 <= j < p.0 ==> (#[trigger] candidates@[j]).0 == 0 || contains_id(
                        self@,
                        candidates@[j].0,
                    )
            },
            r is None ==> forall|j: int|
                0 <= j < candidates@.len() ==> (#[trigger] candidates@[j]).0 == 0 || contains_id(
                    self@,
                    candidates@[j].0,
                ),
    {
        let mut i: usize = 0;
        while i < candidates.len()
            invariant
                i <= candidates@.len(),
                forall|j: int|
                    0 <= j < i ==> (#[trigger] candidates@[j]).0 == 0 || contains_id(
                        self@,
                        candidates@[j].0,
                    ),
            decreases candidates@.len() - i,
        {
            let c = candidates[i];
            if self.id_is_free(c) {
                return Some((i, c));
            }
            i += 1;
        }
        None
    }

    /// The identifier generator: draws random non-zero identifiers until
    /// one is not carried by an active drawing, giving up after
    /// `ID_RETRY_CAP` collisions rather than looping forever.
    pub fn next_id(&self) -> (r: Result<GiveawayId, GiveawayError>)
        ensures
            r matches Ok(id) ==> id.0 != 0 && !contains_id(self@, id.0),
            r matches Err(e) ==> e == GiveawayError::IdentifierExhausted,
    {
        let mut attempts: u32 = 0;
        while attempts < ID_RETRY_CAP
            invariant
                attempts <= ID_RETRY_CAP,
            decreases ID_RETRY_CAP - attempts,
        {
            let candidate = GiveawayId::new();
            if self.id_is_free(candidate) {
                return Ok(candidate);
            }
            attempts += 1;
        }
        Err(GiveawayError::IdentifierExhausted)
    }

    /// Accepts a draft: validates it, allocates a fresh identifier, and
    /// inserts the new drawing with the given announcement reference.
    /// Exactly the invalid drafts are rejected with `InvalidDraft`; the
    /// generator alone can fail otherwise, and then nothing is mutated.
    pub fn create(&mut self, draft: Draft, message: u64) -> (r: Result<Giveaway, GiveawayError>)
        requires
            old(self).wf(),
            !contains_message(old(self)@, message),
        ensures
            final(self).wf(),
            (r matches Err(e) && e == GiveawayError::InvalidDraft) <==> !draft_valid(draft),
            r is Err ==> final(self)@ == old(self)@,
            r matches Err(e) ==> e == GiveawayError::InvalidDraft || e
                == GiveawayError::IdentifierExhausted,
            r matches Ok(g) ==> {
                &&& draft_valid(draft)
                &&& g@.id != 0
                &&& !contains_id(old(self)@, g@.id)
                &&& g@ == draft_model(draft, message, g@.id)
                &&& final(self)@ == old(self)@.push(g@)
            },
    {
        if let Err(e) = draft.validate() {
            return Err(e);
        }
        let id = match self.next_id() {
            Ok(id) => id,
            Err(e) => { return Err(e) },
        };
        let time = match draft.time {
            None => None,
            Some(t) => Some(t - t % 60),
        };
        let g = Giveaway {
            title: draft.title,
            message,
            channel: draft.channel,
            guild: draft.guild,
            emoji: draft.emoji.as_str().get_char(0),
            time,
            users: Vec::new(),
            winner_count: draft.winner_count,
            id,
        };
        let ghost old_view = self@;
        let out = g.duplicate();
        self.giveaways.push(g);
        proof {
            assert(self@ =~= old_view.push(out@));
            assert(out@.wf());
            assert forall|i: int, j: int|
                0 <= i < j < self@.len() implies self@[i].id != self@[j].id by {
                if j == self@.len() - 1 {
                    assert(self@[i] == old_view[i]);
                    assert(contains_id(old_view, self@[j].id) || self@[i].id != self@[j].id);
                }
            }
        }
        Ok(out)
    }

    /// Atomically detaches and returns the drawing carrying `id`, so a
    /// drawing can be resolved at most once; `NotFound` exactly when the
    /// identifier is not active, and then nothing is mutated.
    pub fn remove_by_id(&mut self, id: GiveawayId) -> (r: Result<Giveaway, GiveawayError>)
        requires
            old(self).wf(),
        ensures
            final(self).wf(),
            r is Err <==> !contains_id(old(self)@, id.0),
            r matches Err(e) ==> e == GiveawayError::NotFound && final(self)@ == old(self)@,
            r matches Ok(g) ==> {
                &&& g@.id == id.0
                &&& g@.wf()
                &&& exists|i: int|
                    0 <= i < old(self)@.len() && old(self)@[i] == g@ && final(self)@ == old(
                        self,
                    )@.update(i, old(self)@.last()).drop_last()
                &&& final(self)@.len() == old(self)@.len() - 1
                &&& !contains_id(final(self)@, id.0)
                &&& forall|o: u32|
                    o != id.0 ==> (contains_id(final(self)@, o) <==> contains_id(old(self)@, o))
            },
    {
        let i = match self.position_of_id(id.0) {
            Some(i) => i,
            None => { return Err(GiveawayError::NotFound) },
        };
        let ghost old_view = self@;
        let g = self.giveaways.swap_remove(i);
        proof {
            assert(self@ =~= old_view.update(i as int, old_view.last()).drop_last());
            lemma_swap_remove_keeps(old_view, i as int);
        }
        Ok(g)
    }

    /// As `remove_by_id`, but fails with `WrongScope`, mutating nothing,
    /// when the drawing belongs to a community other than `guild`; used
    /// for manual finish and cancel, which are bound to one community.
    pub fn remove_by_id_scoped(&mut self, id: GiveawayId, guild: u64) -> (r: Result<
        Giveaway,
        GiveawayError,
    >)
        requires
            old(self).wf(),
        ensures
            final(self).wf(),
            r is Err ==> final(self)@ == old(self)@,
            r matches Err(e) ==> e == GiveawayError::NotFound || e == GiveawayError::WrongScope,
            (r matches Err(e) && e == GiveawayError::NotFound) <==> !contains_id(
                old(self)@,
                id.0,
            ),
            (r matches Err(e) && e == GiveawayError::WrongScope) <==> exists|i: int|
                0 <= i < old(self)@.len() && #[trigger] old(self)@[i].id == id.0 && old(
                    self,
                )@[i].guild != guild,
            r matches Ok(g) ==> {
                &&& g@.id == id.0
                &&& g@.guild == guild
                &&& g@.wf()
                &&& exists|i: int|
                    0 <= i < old(self)@.len() && old(self)@[i] == g@ && final(self)@ == old(
                        self,
                    )@.update(i, old(self)@.last()).drop_last()
                &&& final(self)@.len() == old(self)@.len() - 1
                &&& !contains_id(final(self)@, id.0)
                &&& forall|o: u32|
                    o != id.0 ==> (contains_id(final(self)@, o) <==> contains_id(old(self)@, o))
            },
    {
        let i = match self.position_of_id(id.0) {
            Some(i) => i,
            None => { return Err(GiveawayError::NotFound) },
        };
        if self.giveaways[i].guild != guild {
            proof {
                assert forall|j: int|
                    0 <= j < self@.len() && #[trigger] self@[j].id == id.0 implies self@[j].guild
                    != guild by {
                    assert(j == i as int);
                }
            }
            return Err(GiveawayError::WrongScope);
        }
        let ghost old_view = self@;
        let g = self.giveaways.swap_remove(i);
        proof {
            assert(self@ =~= old_view.update(i as int, old_view.last()).drop_last());
            lemma_swap_remove_keeps(old_view, i as int);
        }
        Ok(g)
    }

    /// Content comparison of two whole stores, drawing by drawing.
    pub fn content_eq(&self, other: &InnerState) -> (r: bool)
        ensures
            r == (self@ == other@),
    {
        if self.giveaways.len() != other.giveaways.len() {
            proof {
                assert(self@.len() != other@.len());
            }
            return false;
        }
        let mut i: usize = 0;
        while i < self.giveaways.len()
            invariant
                i <= self.giveaways.len() == other.giveaways.len(),
                self@.len() == other@.len(),
                forall|j: int| 0 <= j < i ==> self@[j] == other@[j],
            decreases self.giveaways.len() - i,
        {
            if !self.giveaways[i].same_content(&other.giveaways[i]) {
                assert(self@[i as int] != other@[i as int]);
                assert(self@ != other@) by {
                    if self@ == other@ {
                        assert(self@[i as int] == other@[i as int]);
                    }
                }
                return false;
            }
            i += 1;
        }
        proof {
            assert(self@ =~= other@);
        }
        true
    }

    /// A consistent point-in-time copy of the whole active set, for
    /// persistence or listing.
    pub fn snapshot(&self) -> (r: InnerState)
        ensures
            r@ == self@,
    {
        let mut out: Vec<Giveaway> = Vec::new();
        let mut i: usize = 0;
        while i < self.giveaways.len()
            invariant
                i <= self.giveaways.len(),
                out@.len() == i,
                forall|j: int| 0 <= j < i ==> (#[trigger] out@[j])@ == self.giveaways@[j]@,
            decreases self.giveaways.len() - i,
        {
            out.push(self.giveaways[i].duplicate());
            i += 1;
        }
        let r = InnerState { giveaways: out };
        proof {
            assert(r@ =~= self@);
        }
        r
    }
}

} // verus!
