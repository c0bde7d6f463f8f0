use dogiveaway::giveaway::{Draft, GiveawayError, Giveaway, GiveawayId};
use dogiveaway::resolve::Outcome;
use dogiveaway::scheduler::next_wake_delay;
use dogiveaway::store::InnerState;

fn drawing(users: Vec<u64>, winner_count: u16, time: Option<i64>) -> Giveaway {
    Giveaway {
        title: "Prize".to_string(),
        message: 100,
        channel: 10,
        guild: 20,
        emoji: 'x',
        time,
        users,
        winner_count,
        id: GiveawayId(42),
    }
}

fn winners_of(outcome: Outcome) -> Vec<u64> {
    match outcome {
        Outcome::Winners { winners, .. } => winners,
        Outcome::NoParticipants { .. } => panic!("expected winners"),
    }
}

#[test]
fn finish_draws_three_distinct_winners_from_five() {
    let g = drawing(vec![1, 2, 3, 4, 5], 3, None);
    let winners = winners_of(g.finish());
    assert_eq!(winners.len(), 3);
    for a in 0..winners.len() {
        assert!(winners[a] >= 1 && winners[a] <= 5);
        for b in a + 1..winners.len() {
            assert_ne!(winners[a], winners[b]);
        }
    }
}

#[test]
fn finish_with_more_winners_than_participants_draws_them_all() {
    let g = drawing(vec![8, 9], 5, None);
    let mut winners = winners_of(g.finish());
    assert_eq!(winners.len(), 2);
    winners.sort();
    assert_eq!(winners, vec![8, 9]);
}

#[test]
fn finish_with_no_participants_states_so() {
    let g = drawing(Vec::new(), 3, None);
    match g.finish() {
        Outcome::NoParticipants { id, title, channel, announcement } => {
            assert_eq!(id, GiveawayId(42));
            assert_eq!(title, "Prize");
            assert_eq!(channel, 10);
            assert_eq!(announcement, 100);
        },
        Outcome::Winners { .. } => panic!("expected no participants"),
    }
}

#[test]
fn finish_carries_the_audit_fields() {
    let g = drawing(vec![5], 1, None);
    match g.finish() {
        Outcome::Winners { id, title, channel, announcement, winners } => {
            assert_eq!(id, GiveawayId(42));
            assert_eq!(title, "Prize");
            assert_eq!(channel, 10);
            assert_eq!(announcement, 100);
            assert_eq!(winners, vec![5]);
        },
        Outcome::NoParticipants { .. } => panic!("expected winners"),
    }
}

#[test]
fn cancel_names_the_actor_and_the_drawing() {
    let g = drawing(vec![1, 2], 1, None);
    let notice = g.cancel(900);
    assert_eq!(notice.id, GiveawayId(42));
    assert_eq!(notice.title, "Prize");
    assert_eq!(notice.channel, 10);
    assert_eq!(notice.announcement, 100);
    assert_eq!(notice.actor, 900);
}

#[test]
fn sweep_detaches_and_resolves_exactly_once() {
    // A drawing five minutes out, three users opting in; at a minute
    // boundary past the deadline one sweep detaches it, and the next
    // sweep finds nothing.
    let now: i64 = 1_000_020;
    let mut st = InnerState::new();
    let g = st
        .create(
            Draft {
                title: "Prize".to_string(),
                channel: 10,
                guild: 20,
                emoji: 'x'.to_string(),
                time: Some(now + 300),
                winner_count: 2,
            },
            100,
        )
        .unwrap();
    st.handle_reaction_add(100, 'x', 1);
    st.handle_reaction_add(100, 'x', 2);
    st.handle_reaction_add(100, 'x', 3);
    assert!(!st.has_expired(now));
    let tick: i64 = 1_000_380;
    assert_eq!(tick % 60, 0);
    assert!(st.has_expired(tick));
    let expired = st.take_expired(tick);
    assert_eq!(expired.len(), 1);
    assert_eq!(expired[0].id, g.id);
    assert_eq!(st.giveaways.len(), 0);
    let winners = winners_of(expired.into_iter().next().unwrap().finish());
    assert_eq!(winners.len(), 2);
    for w in &winners {
        assert!([1u64, 2, 3].contains(w));
    }
    assert_ne!(winners[0], winners[1]);
    // The second sweep finds it absent: no double resolution.
    assert!(st.take_expired(tick + 60).is_empty());
    assert!(matches!(st.remove_by_id(g.id), Err(GiveawayError::NotFound)));
}

#[test]
fn sweep_leaves_unexpired_and_deadline_free_drawings() {
    let mut st = InnerState::new();
    let mk = |title: &str, time: Option<i64>| Draft {
        title: title.to_string(),
        channel: 10,
        guild: 20,
        emoji: 'x'.to_string(),
        time,
        winner_count: 1,
    };
    let a = st.create(mk("Old", Some(60)), 100).unwrap();
    let b = st.create(mk("Fresh", Some(6_000)), 101).unwrap();
    let c = st.create(mk("Manual", None), 102).unwrap();
    let expired = st.take_expired(120);
    assert_eq!(expired.len(), 1);
    assert_eq!(expired[0].id, a.id);
    assert_eq!(st.giveaways.len(), 2);
    assert!(st.remove_by_id(b.id).is_ok());
    assert!(st.remove_by_id(c.id).is_ok());
}

#[test]
fn cancel_scenario_removes_posts_and_stays_gone() {
    let mut st = InnerState::new();
    let g = st
        .create(
            Draft {
                title: "Prize".to_string(),
                channel: 10,
                guild: 20,
                emoji: 'x'.to_string(),
                time: None,
                winner_count: 1,
            },
            100,
        )
        .unwrap();
    let detached = st.remove_by_id_scoped(g.id, 20).unwrap();
    let notice = detached.cancel(900);
    assert_eq!(notice.actor, 900);
    assert_eq!(notice.id, g.id);
    // A subsequent finish request for the same id finds nothing.
    assert!(matches!(
        st.remove_by_id_scoped(g.id, 20),
        Err(GiveawayError::NotFound)
    ));
}

#[test]
fn wake_delay_lands_on_the_next_minute_boundary() {
    assert_eq!(next_wake_delay(0), 60);
    assert_eq!(next_wake_delay(59), 1);
    assert_eq!(next_wake_delay(60), 60);
    assert_eq!(next_wake_delay(61), 59);
    let now: i64 = 987_654_321;
    let d = next_wake_delay(now);
    assert!(d >= 1 && d <= 60);
    assert_eq!((now + d as i64) % 60, 0);
}

#[test]
fn sweep_detaches_every_drawing_expired_in_the_same_tick() {
    let mut st = InnerState::new();
    let mk = |time: i64| Draft {
        title: "Prize".to_string(),
        channel: 10,
        guild: 20,
        emoji: 'x'.to_string(),
        time: Some(time),
        winner_count: 1,
    };
    let a = st.create(mk(60), 100).unwrap();
    let b = st.create(mk(120), 101).unwrap();
    let expired = st.take_expired(120);
    assert_eq!(expired.len(), 2);
    let mut ids: Vec<u32> = expired.iter().map(|g| g.id.0).collect();
    ids.sort();
    let mut want = vec![a.id.0, b.id.0];
    want.sort();
    assert_eq!(ids, want);
    assert!(st.take_expired(180).is_empty());
}
