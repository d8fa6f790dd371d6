use bizarro::config::GenerationParams;
use bizarro::errors::ModelError;
use bizarro::store::{HistoryMessage, UserChains, parse_entity_id};

fn msg(author: u64, content: &str, marker: u64) -> HistoryMessage {
    HistoryMessage { author, content: content.to_string(), marker }
}

#[test]
fn regenerate_tracks_exactly_the_given_entities() {
    let s = UserChains::regenerate(&vec![1, 2, 3]);
    assert_eq!(s.count_users(), 3);
    let mut ids = s.user_ids();
    ids.sort();
    assert_eq!(ids, vec![1, 2, 3]);
}

#[test]
fn regenerate_skips_duplicate_entities() {
    let s = UserChains::regenerate(&vec![7, 7, 7]);
    assert_eq!(s.count_users(), 1);
}

#[test]
fn untracked_entity_is_not_tracked() {
    let s = UserChains::regenerate(&vec![1]);
    assert_eq!(s.generate_for(2, 1).unwrap_err(), ModelError::NotTracked);
    assert!(s.make_message(2).is_none());
}

#[test]
fn tracked_but_unfed_entity_gives_empty_model() {
    let s = UserChains::regenerate(&vec![1]);
    assert_eq!(s.generate_for(1, 1).unwrap_err(), ModelError::EmptyModel);
    assert!(s.make_message(1).is_none());
}

#[test]
fn fed_entity_generates() {
    let mut s = UserChains::regenerate(&vec![1]);
    s.feed(1, "hello world");
    let v = s.generate_for(1, 3).unwrap();
    assert_eq!(v.len(), 3);
    for t in &v {
        assert!(t.starts_with("hello"));
    }
    assert!(s.make_message(1).unwrap().starts_with("hello"));
    assert_eq!(s.message_iter(1, 2).unwrap().len(), 2);
}

#[test]
fn feeding_an_untracked_author_is_ignored() {
    let mut s = UserChains::regenerate(&vec![1]);
    s.feed(9, "hello world");
    assert_eq!(s.count_users(), 1);
    assert_eq!(s.generate_for(1, 1).unwrap_err(), ModelError::EmptyModel);
}

#[test]
fn ingest_page_filters_and_routes() {
    let mut s = UserChains::regenerate(&vec![1, 2]);
    let params = GenerationParams { min_words: 2, include_tag_only: true };
    let page = vec![
        msg(1, "hello there friend", 103),
        msg(1, "ok", 102),             // too short, filtered
        msg(9, "from a stranger", 101), // untracked, dropped
        msg(2, "<@!77>", 100),          // lone mention, filtered
    ];
    s.ingest_page(&page, &params);
    assert!(s.generate_for(1, 1).is_ok());
    assert_eq!(s.generate_for(2, 1).unwrap_err(), ModelError::EmptyModel);
}

#[test]
fn next_cursor_is_the_oldest_marker() {
    let page = vec![msg(1, "newest", 30), msg(1, "middle", 20), msg(1, "oldest", 10)];
    assert_eq!(UserChains::next_cursor(&page), Some(10));
    assert_eq!(UserChains::next_cursor(&vec![]), None);
}

#[test]
fn regeneration_swaps_whole_stores() {
    // A rebuild produces a fresh store; a reader holding the old value
    // sees only old data, one holding the new value only new data.
    let mut old_store = UserChains::regenerate(&vec![1]);
    old_store.feed(1, "old words here");
    let new_store = UserChains::regenerate(&vec![2]);
    assert_eq!(new_store.generate_for(1, 1).unwrap_err(), ModelError::NotTracked);
    assert_eq!(new_store.generate_for(2, 1).unwrap_err(), ModelError::EmptyModel);
    assert!(old_store.generate_for(1, 1).is_ok());
    assert_eq!(old_store.generate_for(2, 1).unwrap_err(), ModelError::NotTracked);
}

#[test]
fn store_save_load_round_trip() {
    let mut s = UserChains::regenerate(&vec![10, 20]);
    s.feed(10, "alpha beta gamma");
    s.feed(20, "uno dos tres");
    let files = s.save();
    assert_eq!(files.len(), 2);
    let s2 = UserChains::load(&files).unwrap();
    assert_eq!(s2.count_users(), 2);
    assert!(s2.generate_for(10, 1).unwrap()[0].starts_with("alpha"));
    assert!(s2.generate_for(20, 1).unwrap()[0].starts_with("uno"));
    // Saving the reloaded store yields identical images.
    assert_eq!(s2.save(), files);
}

#[test]
fn store_load_rejects_a_corrupt_image() {
    let files = vec![(1u64, vec![9u8, 9, 9])];
    assert_eq!(UserChains::load(&files).unwrap_err(), ModelError::IoError);
}

#[test]
fn mention_event_draws_a_bounded_number_of_texts() {
    let mut s = UserChains::regenerate(&vec![1, 2]);
    s.feed(1, "hi there");
    let r = s.on_mention_event(&vec![1, 2, 9], 1, 5);
    // Entity 2 is unfed and entity 9 untracked: only entity 1 answers.
    assert_eq!(r.len(), 1);
    assert_eq!(r[0].0, 1);
    assert!(r[0].1.len() >= 1 && r[0].1.len() < 5);
    for t in &r[0].1 {
        assert!(t.starts_with("hi"));
    }
}

#[test]
fn entity_ids_parse_from_file_stems() {
    assert_eq!(parse_entity_id("123"), Some(123));
    assert_eq!(parse_entity_id("0"), Some(0));
    assert_eq!(parse_entity_id("18446744073709551615"), Some(u64::MAX));
    assert_eq!(parse_entity_id("18446744073709551616"), None);
    assert_eq!(parse_entity_id(""), None);
    assert_eq!(parse_entity_id("12a"), None);
    assert_eq!(parse_entity_id("-5"), None);
    assert_eq!(parse_entity_id("config"), None);
}

#[test]
fn chains_of_different_entities_stay_apart() {
    let mut s = UserChains::regenerate(&vec![1, 2]);
    s.feed(1, "red green");
    s.feed(2, "blue yellow");
    let files = s.save();
    let s2 = UserChains::load(&files).unwrap();
    for _ in 0..20 {
        assert!(s2.generate_for(1, 1).unwrap()[0].starts_with("red"));
        assert!(s2.generate_for(2, 1).unwrap()[0].starts_with("blue"));
    }
}

#[test]
fn mention_event_answers_in_mention_order() {
    let mut s = UserChains::regenerate(&vec![5, 6]);
    s.feed(5, "five words");
    s.feed(6, "six words");
    let r = s.on_mention_event(&vec![6, 5], 1, 2);
    assert_eq!(r.len(), 2);
    assert_eq!(r[0].0, 6);
    assert_eq!(r[1].0, 5);
    assert_eq!(r[0].1.len(), 1);
    assert_eq!(r[1].1.len(), 1);
}
