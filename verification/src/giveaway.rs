//! The drawing entity, its identifier, drafts, and draft validation.

use vstd::prelude::*;
use vstd::string::StrSliceExecFns;

verus! {

/// Identifier of an active drawing: a non-zero 32-bit token.
#[derive(Copy, Clone, Debug, PartialEq, Eq, Structural)]
pub struct GiveawayId(pub u32);

impl GiveawayId {
    /// A well-formed identifier is never zero.
    pub open spec fn wf(self) -> bool {
        self.0 != 0
    }

    /// Relies on rand::random for NonZeroU32: a uniformly random non-zero value
    /// drawn from the thread-local generator.
    #[verifier::external_body]
    fn random_nonzero() -> (r: u32)
        ensures
            r != 0,
    {
        rand::random::<core::num::NonZeroU32>().get()
    }

    /// Draws a fresh random identifier; collision checking against the
    /// active set is the store's job.
    pub fn new() -> (r: Self)
        ensures
            r.wf(),
    {
        GiveawayId(Self::random_nonzero())
    }
}

/// Everything that can go wrong in the lifecycle engine.
#[derive(Copy, Clone, Debug, PartialEq, Eq, Structural)]
pub enum GiveawayError {
    /// The draft was rejected at creation time: empty title, multi-scalar
    /// symbol, zero winner count, or an out-of-range deadline.
    InvalidDraft,
    /// A finish or cancel request named an id that is not active.
    NotFound,
    /// A finish or cancel request named a drawing of another community.
    WrongScope,
    /// The identifier generator hit its retry cap; treated as fatal for
    /// that creation attempt.
    IdentifierExhausted,
}

/// Mathematical shadow of a [`Giveaway`]: what the contracts speak of.
pub ghost struct GiveawayModel {
    pub id: u32,
    pub title: Seq<char>,
    pub message: u64,
    pub channel: u64,
    pub guild: u64,
    pub emoji: char,
    pub time: Option<i64>,
    pub users: Seq<u64>,
    pub winner_count: u16,
}

/// A deadline is kept as seconds since the Unix epoch, non-negative and
/// truncated to a whole minute.
pub open spec fn valid_deadline(t: i64) -> bool {
    0 <= t && (t as int) % 60 == 0
}

impl GiveawayModel {
    /// Invariant of a single drawing: non-zero id, non-empty title, at
    /// least one winner, and a minute-truncated deadline if any.
    pub open spec fn wf(self) -> bool {
        &&& self.id != 0
        &&& self.title.len() > 0
        &&& self.winner_count >= 1
        &&& (self.time matches Some(t) ==> valid_deadline(t))
    }
}

/// One active drawing: a giveaway from creation to resolution.
#[derive(Debug)]
pub struct Giveaway {
    pub title: String,
    /// Reference of the announcement message participants react to.
    pub message: u64,
    /// Channel the drawing lives in.
    pub channel: u64,
    /// Community the drawing belongs to; scopes manual finish and cancel.
    pub guild: u64,
    /// The single reaction symbol that opts a user in.
    pub emoji: char,
    /// Optional deadline; absent means manual-only resolution.
    pub time: Option<i64>,
    /// Current participants; repeated joins may repeat a user.
    pub users: Vec<u64>,
    pub winner_count: u16,
    pub id: GiveawayId,
}

impl View for Giveaway {
    type V = GiveawayModel;

    open spec fn view(&self) -> GiveawayModel {
        GiveawayModel {
            id: self.id.0,
            title: self.title@,
            message: self.message,
            channel: self.channel,
            guild: self.guild,
            emoji: self.emoji,
            time: self.time,
            users: self.users@,
            winner_count: self.winner_count,
        }
    }
}

impl Giveaway {
    /// Invariant of a single drawing, stated over its model.
    pub open spec fn wf(self) -> bool {
        self@.wf()
    }

    /// A content-equal copy; the original stays in the store while the
    /// copy is handed to the caller.
    pub fn duplicate(&self) -> (r: Giveaway)
        ensures
            r@ == self@,
    {
        Giveaway {
            title: self.title.clone(),
            message: self.message,
            channel: self.channel,
            guild: self.guild,
            emoji: self.emoji,
            time: self.time,
            users: self.users.clone(),
            winner_count: self.winner_count,
            id: self.id,
        }
    }
}

/// Entry-by-entry comparison of two participant rows.
fn users_eq(a: &Vec<u64>, b: &Vec<u64>) -> (r: bool)
    ensures
        r == (a@ == b@),
{
    if a.len() != b.len() {
        return false;
    }
    let mut i: usize = 0;
    while i < a.len()
        invariant
            i <= a.len() == b.len(),
            a@.len() == b@.len(),
            forall|j: int| 0 <= j < i ==> a@[j] == b@[j],
        decreases a.len() - i,
    {
        if a[i] != b[i] {
            return false;
        }
        i += 1;
    }
    proof {
        assert(a@ =~= b@);
    }
    true
}

impl Giveaway {
    /// Content comparison: true exactly when the two drawings carry the
    /// same model, whatever their identity as heap values.
    pub fn same_content(&self, other: &Giveaway) -> (r: bool)
        ensures
            r == (self@ == other@),
    {
        let time_eq = match (self.time, other.time) {
            (None, None) => true,
            (Some(a), Some(b)) => a == b,
            _ => false,
        };
        self.id.0 == other.id.0 && self.title.eq(&other.title) && self.message == other.message
            && self.channel == other.channel && self.guild == other.guild && self.emoji
            == other.emoji && time_eq && users_eq(&self.users, &other.users) && self.winner_count
            == other.winner_count
    }
}

/// What the command surface hands to `create`, before any validation.
#[derive(Debug)]
pub struct Draft {
    pub title: String,
    pub channel: u64,
    pub guild: u64,
    /// Requested reaction symbol; must be exactly one Unicode scalar.
    pub emoji: String,
    /// Requested deadline as a raw Unix timestamp, if any.
    pub time: Option<i64>,
    pub winner_count: u16,
}

/// A draft is acceptable when the title is non-empty, the symbol is one
/// scalar value, at least one winner is requested, and the deadline, if
/// any, is a representable (non-negative) timestamp.
pub open spec fn draft_valid(d: Draft) -> bool {
    &&& d.title@.len() > 0
    &&& d.emoji@.len() == 1
    &&& d.winner_count >= 1
    &&& (d.time matches Some(t) ==> t >= 0)
}

/// Flooring a timestamp to its whole minute.
pub open spec fn trunc_minute(t: i64) -> int {
    t as int - (t as int) % 60
}

/// The drawing that accepting draft `d` with announcement reference
/// `message` and identifier `id` puts into the store.
pub open spec fn draft_model(d: Draft, message: u64, id: u32) -> GiveawayModel {
    GiveawayModel {
        id,
        title: d.title@,
        message,
        channel: d.channel,
        guild: d.guild,
        emoji: d.emoji@[0],
        time: match d.time {
            Option::None => Option::None,
            Option::Some(t) => Option::Some(trunc_minute(t) as i64),
        },
        users: Seq::empty(),
        winner_count: d.winner_count,
    }
}

impl Draft {
    /// Checks the draft exactly as `create` will: accepted if and only if
    /// every creation-time rule of the engine holds.
    pub fn validate(&self) -> (r: Result<(), GiveawayError>)
        ensures
            r is Ok <==> draft_valid(*self),
            r matches Err(e) ==> e == GiveawayError::InvalidDraft,
    {
        if self.title.as_str().is_empty() {
            return Err(GiveawayError::InvalidDraft);
        }
        if self.emoji.as_str().unicode_len() != 1 {
            return Err(GiveawayError::InvalidDraft);
        }
        if self.winner_count == 0 {
            return Err(GiveawayError::InvalidDraft);
        }
        if let Some(t) = self.time {
            if t < 0 {
                return Err(GiveawayError::InvalidDraft);
            }
        }
        Ok(())
    }
}

} // verus!
