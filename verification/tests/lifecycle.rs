use dogiveaway::giveaway::{Draft, GiveawayError, GiveawayId};
use dogiveaway::store::InnerState;

fn draft(title: &str, emoji: &str, winner_count: u16, time: Option<i64>) -> Draft {
    Draft {
        title: title.to_string(),
        channel: 10,
        guild: 20,
        emoji: emoji.to_string(),
        time,
        winner_count,
    }
}

#[test]
fn create_with_zero_winner_count_is_invalid() {
    let mut st = InnerState::new();
    let r = st.create(draft("Prize", "x", 0, None), 100);
    assert!(matches!(r, Err(GiveawayError::InvalidDraft)));
    assert_eq!(st.giveaways.len(), 0);
}

#[test]
fn create_with_positive_winner_count_succeeds() {
    let mut st = InnerState::new();
    let r = st.create(draft("Prize", "x", 1, None), 100);
    assert!(r.is_ok());
    let g = r.unwrap();
    assert_ne!(g.id.0, 0);
    assert_eq!(g.title, "Prize");
    assert_eq!(g.message, 100);
    assert_eq!(g.channel, 10);
    assert_eq!(g.guild, 20);
    assert_eq!(g.winner_count, 1);
    assert!(g.users.is_empty());
    assert_eq!(st.giveaways.len(), 1);
}

#[test]
fn create_with_two_scalar_symbol_is_invalid() {
    let mut st = InnerState::new();
    let r = st.create(draft("Prize", "ab", 1, None), 100);
    assert!(matches!(r, Err(GiveawayError::InvalidDraft)));
    let r2 = st.create(draft("Prize", "\u{1F44D}\u{1F44D}", 1, None), 100);
    assert!(matches!(r2, Err(GiveawayError::InvalidDraft)));
}

#[test]
fn create_with_one_scalar_emoji_symbol_succeeds() {
    let mut st = InnerState::new();
    let r = st.create(draft("Prize", "\u{1F44D}", 1, None), 100);
    assert_eq!(r.unwrap().emoji, '\u{1F44D}');
}

#[test]
fn create_with_empty_title_is_invalid() {
    let mut st = InnerState::new();
    let r = st.create(draft("", "x", 1, None), 100);
    assert!(matches!(r, Err(GiveawayError::InvalidDraft)));
}

#[test]
fn create_with_negative_deadline_is_invalid() {
    let mut st = InnerState::new();
    let r = st.create(draft("Prize", "x", 1, Some(-5)), 100);
    assert!(matches!(r, Err(GiveawayError::InvalidDraft)));
}

#[test]
fn create_truncates_deadline_to_whole_minute() {
    let mut st = InnerState::new();
    let g = st.create(draft("Prize", "x", 1, Some(125)), 100).unwrap();
    assert_eq!(g.time, Some(120));
    let g2 = st.create(draft("Prize", "x", 1, Some(180)), 101).unwrap();
    assert_eq!(g2.time, Some(180));
}

#[test]
fn repeated_creates_yield_distinct_nonzero_ids() {
    let mut st = InnerState::new();
    let mut ids = Vec::new();
    for k in 0..20u64 {
        let g = st.create(draft("Prize", "x", 1, None), 100 + k).unwrap();
        assert_ne!(g.id.0, 0);
        ids.push(g.id.0);
    }
    for a in 0..ids.len() {
        for b in a + 1..ids.len() {
            assert_ne!(ids[a], ids[b]);
        }
    }
}

#[test]
fn generator_retries_past_a_collision() {
    // A mocked candidate row forcing an initial collision: the first
    // candidate is already active, so the generator must reject it and
    // accept the second.
    let mut st = InnerState::new();
    let g = st.create(draft("Prize", "x", 1, None), 100).unwrap();
    let used = g.id;
    let fresh = GiveawayId(if used.0 == 7 { 8 } else { 7 });
    let candidates = vec![used, fresh];
    let picked = st.first_fresh(&candidates);
    assert_eq!(picked, Some((1, fresh)));
}

#[test]
fn generator_rejects_zero_and_active_ids() {
    let mut st = InnerState::new();
    let g = st.create(draft("Prize", "x", 1, None), 100).unwrap();
    assert!(!st.id_is_free(GiveawayId(0)));
    assert!(!st.id_is_free(g.id));
    let other = GiveawayId(if g.id.0 == 1 { 2 } else { 1 });
    assert!(st.id_is_free(other));
    let next = st.next_id().unwrap();
    assert_ne!(next.0, 0);
    assert_ne!(next.0, g.id.0);
}

#[test]
fn remove_by_id_scoped_unknown_id_is_not_found() {
    let mut st = InnerState::new();
    let r = st.remove_by_id_scoped(GiveawayId(12345), 20);
    assert!(matches!(r, Err(GiveawayError::NotFound)));
}

#[test]
fn remove_by_id_scoped_wrong_guild_keeps_the_drawing() {
    let mut st = InnerState::new();
    let g = st.create(draft("Prize", "x", 1, None), 100).unwrap();
    let r = st.remove_by_id_scoped(g.id, 9999);
    assert!(matches!(r, Err(GiveawayError::WrongScope)));
    assert_eq!(st.giveaways.len(), 1);
    // Still there: the correctly scoped removal now succeeds.
    let taken = st.remove_by_id_scoped(g.id, 20).unwrap();
    assert_eq!(taken.id, g.id);
    assert_eq!(st.giveaways.len(), 0);
}

#[test]
fn remove_by_id_detaches_exactly_once() {
    let mut st = InnerState::new();
    let g = st.create(draft("Prize", "x", 1, None), 100).unwrap();
    let taken = st.remove_by_id(g.id).unwrap();
    assert_eq!(taken.id, g.id);
    let again = st.remove_by_id(g.id);
    assert!(matches!(again, Err(GiveawayError::NotFound)));
}

#[test]
fn joined_with_non_matching_symbol_changes_nothing() {
    let mut st = InnerState::new();
    let g = st.create(draft("Prize", "x", 1, None), 100).unwrap();
    st.handle_reaction_add(100, 'y', 77);
    assert!(st.giveaways[0].users.is_empty());
    st.handle_reaction_add(100, 'x', 77);
    assert_eq!(st.giveaways[0].users, vec![77]);
    let _ = g;
}

#[test]
fn joined_for_unknown_message_is_a_no_op() {
    let mut st = InnerState::new();
    st.create(draft("Prize", "x", 1, None), 100).unwrap();
    st.handle_reaction_add(555, 'x', 77);
    assert!(st.giveaways[0].users.is_empty());
}

#[test]
fn left_for_absent_user_is_a_no_op() {
    let mut st = InnerState::new();
    st.create(draft("Prize", "x", 1, None), 100).unwrap();
    st.handle_reaction_add(100, 'x', 77);
    st.handle_reaction_remove(100, 'x', 88);
    assert_eq!(st.giveaways[0].users, vec![77]);
    st.handle_reaction_remove(100, 'y', 77);
    assert_eq!(st.giveaways[0].users, vec![77]);
    st.handle_reaction_remove(100, 'x', 77);
    assert!(st.giveaways[0].users.is_empty());
}

#[test]
fn left_removes_one_occurrence_of_a_doubled_user() {
    let mut st = InnerState::new();
    st.create(draft("Prize", "x", 1, None), 100).unwrap();
    st.handle_reaction_add(100, 'x', 77);
    st.handle_reaction_add(100, 'x', 77);
    assert_eq!(st.giveaways[0].users.len(), 2);
    st.handle_reaction_remove(100, 'x', 77);
    assert_eq!(st.giveaways[0].users, vec![77]);
}

#[test]
fn snapshot_copies_content() {
    let mut st = InnerState::new();
    st.create(draft("Prize", "x", 2, Some(300)), 100).unwrap();
    st.handle_reaction_add(100, 'x', 7);
    let snap = st.snapshot();
    assert!(snap.content_eq(&st));
    // Mutating the snapshot leaves the store alone.
    let mut snap = snap;
    snap.handle_reaction_add(100, 'x', 8);
    assert!(!snap.content_eq(&st));
    assert_eq!(st.giveaways[0].users, vec![7]);
}

#[test]
fn generator_gives_up_when_every_candidate_collides() {
    // The deterministic analogue of identifier exhaustion: a candidate
    // row of only zeros and active ids is rejected entirely.
    let mut st = InnerState::new();
    let g = st.create(draft("Prize", "x", 1, None), 100).unwrap();
    let candidates = vec![GiveawayId(0), g.id, g.id];
    assert_eq!(st.first_fresh(&candidates), None);
}
