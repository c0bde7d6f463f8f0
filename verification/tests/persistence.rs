use dogiveaway::giveaway::Draft;
use dogiveaway::store::InnerState;

fn populated_store() -> InnerState {
    let mut st = InnerState::new();
    st.create(
        Draft {
            title: "Grosser Preis \u{1F381}".to_string(),
            channel: 11,
            guild: 21,
            emoji: "\u{1F44D}".to_string(),
            time: Some(1_000_020),
            winner_count: 3,
        },
        100,
    )
    .unwrap();
    st.create(
        Draft {
            title: "Zweiter Preis".to_string(),
            channel: 12,
            guild: 22,
            emoji: "x".to_string(),
            time: None,
            winner_count: 1,
        },
        101,
    )
    .unwrap();
    st.handle_reaction_add(100, '\u{1F44D}', 7);
    st.handle_reaction_add(100, '\u{1F44D}', 8);
    st.handle_reaction_add(100, '\u{1F44D}', 7);
    st
}

#[test]
fn snapshot_round_trip_reproduces_the_store() {
    let st = populated_store();
    let snap = st.snapshot();
    let doc = snap.encode();
    let back = InnerState::decode(&doc).expect("a written snapshot must read back");
    assert!(back.content_eq(&st));
    assert_eq!(back.giveaways.len(), 2);
    assert_eq!(back.giveaways[0].title, "Grosser Preis \u{1F381}");
    assert_eq!(back.giveaways[0].emoji, '\u{1F44D}');
    assert_eq!(back.giveaways[0].time, Some(1_000_020));
    assert_eq!(back.giveaways[0].users, vec![7, 8, 7]);
    assert_eq!(back.giveaways[1].time, None);
}

#[test]
fn empty_store_round_trips() {
    let st = InnerState::new();
    let doc = st.encode();
    let back = InnerState::decode(&doc).unwrap();
    assert!(back.content_eq(&st));
    assert_eq!(back.giveaways.len(), 0);
}

#[test]
fn encoding_is_not_the_input_itself() {
    // The document really carries the record: the id's decimal digits
    // appear in it, and a one-record store encodes to more than its
    // count token.
    let st = populated_store();
    let doc = st.encode();
    let text: String = doc.iter().collect();
    let id = st.giveaways[0].id.0;
    assert!(text.contains(&id.to_string()));
    assert!(text.contains("Zweiter Preis"));
    assert!(text.starts_with("2 "));
}

#[test]
fn decode_rejects_garbage() {
    let garbage: Vec<char> = "not a snapshot".chars().collect();
    assert!(InnerState::decode(&garbage).is_none());
    let truncated: Vec<char> = "2 ".chars().collect();
    assert!(InnerState::decode(&truncated).is_none());
    let empty: Vec<char> = Vec::new();
    assert!(InnerState::decode(&empty).is_none());
}

#[test]
fn decode_rejects_trailing_text() {
    let st = populated_store();
    let mut doc = st.encode();
    assert!(InnerState::decode(&doc).is_some());
    doc.push('!');
    assert!(InnerState::decode(&doc).is_none());
}

#[test]
fn a_handwritten_document_decodes_as_the_format_says() {
    // count 1; id 7, announcement 100, channel 10, guild 20, symbol x,
    // deadline flag 1 with timestamp 120, two winners, participants 5
    // and 6, then the five title characters.
    let doc: Vec<char> = "1 7 100 10 20 x 1 120 2 2 5 6 5 Prize".chars().collect();
    let st = InnerState::decode(&doc).expect("a well-formed document must decode");
    assert_eq!(st.giveaways.len(), 1);
    let g = &st.giveaways[0];
    assert_eq!(g.id.0, 7);
    assert_eq!(g.message, 100);
    assert_eq!(g.channel, 10);
    assert_eq!(g.guild, 20);
    assert_eq!(g.emoji, 'x');
    assert_eq!(g.time, Some(120));
    assert_eq!(g.winner_count, 2);
    assert_eq!(g.users, vec![5, 6]);
    assert_eq!(g.title, "Prize");
    // And it is exactly what the encoder writes for that store.
    assert_eq!(st.encode(), doc);
}

#[test]
fn decode_rejects_an_ill_formed_store() {
    // A record whose id digits read zero breaks the invariant and must
    // be refused, even though it parses.
    let zero_id: Vec<char> = "1 0 100 10 20 x 1 120 2 2 5 6 5 Prize".chars().collect();
    assert!(InnerState::decode(&zero_id).is_none());
    // So do a duplicated identifier, an unaligned deadline, a zero
    // winner count, and an empty title.
    let two_records =
        |first_id: &str| format!("2 {} 100 10 20 x 0 1 0 5 Prize7 101 10 20 x 0 1 0 6 Second", first_id);
    let distinct: Vec<char> = two_records("8").chars().collect();
    assert!(InnerState::decode(&distinct).is_some());
    let duplicated: Vec<char> = two_records("7").chars().collect();
    assert!(InnerState::decode(&duplicated).is_none());
    let unaligned: Vec<char> = "1 7 100 10 20 x 1 121 2 2 5 6 5 Prize".chars().collect();
    assert!(InnerState::decode(&unaligned).is_none());
    let no_winner: Vec<char> = "1 7 100 10 20 x 1 120 0 2 5 6 5 Prize".chars().collect();
    assert!(InnerState::decode(&no_winner).is_none());
    let untitled: Vec<char> = "1 7 100 10 20 x 1 120 2 2 5 6 0 ".chars().collect();
    assert!(InnerState::decode(&untitled).is_none());
}
