use storystats::message::Message;
use storystats::stats::WordStats;

fn msg(id: u64, timestamp: i64, author_id: u64, content: &str) -> Message {
    Message { id, timestamp, author_id, content: String::from(content) }
}

#[test]
fn update_counts_tokens_and_frequencies() {
    let mut stats = WordStats::default();
    stats.update(&msg(1, 10, 7, "the cat sat"));
    assert_eq!(stats.word_count, 3);
    assert_eq!(
        stats.word_frequencies,
        vec![
            (String::from("the"), 1),
            (String::from("cat"), 1),
            (String::from("sat"), 1)
        ]
    );
}

#[test]
fn update_lowercases_tokens() {
    let mut stats = WordStats::default();
    stats.update(&msg(1, 10, 7, "Cat CAT cat"));
    assert_eq!(stats.word_frequencies, vec![(String::from("cat"), 3)]);
}

#[test]
fn update_is_idempotent_per_message_id() {
    let mut stats = WordStats::default();
    let m = msg(1, 10, 7, "the cat sat");
    stats.update(&m);
    stats.update(&m);
    assert_eq!(stats.word_count, 3);
    assert_eq!(stats.last_message(), Some(1));
    // A different identifier with the same text counts again.
    stats.update(&msg(2, 11, 7, "the cat sat"));
    assert_eq!(stats.word_count, 6);
}

#[test]
fn last_message_follows_timestamps_not_arrival() {
    // Newer first, older second: the marker keeps the newer one.
    let mut stats = WordStats::default();
    stats.update(&msg(2, 20, 7, "newer"));
    stats.update(&msg(1, 10, 7, "older"));
    assert_eq!(stats.last_message(), Some(2));

    // Older first, newer second: the marker advances.
    let mut stats2 = WordStats::default();
    stats2.update(&msg(1, 10, 7, "older"));
    stats2.update(&msg(2, 20, 7, "newer"));
    assert_eq!(stats2.last_message(), Some(2));

    // An equal timestamp does not replace: first seen wins.
    let mut stats3 = WordStats::default();
    stats3.update(&msg(1, 10, 7, "first"));
    stats3.update(&msg(2, 10, 7, "second"));
    assert_eq!(stats3.last_message(), Some(1));
}

#[test]
fn top_words_ranks_by_descending_frequency() {
    let mut stats = WordStats::default();
    stats.update(&msg(1, 1, 7, "apple apple apple pear pear plum"));
    assert_eq!(stats.top_words(2), String::from("apple, pear"));
    assert_eq!(stats.top_words(10), String::from("apple, pear, plum"));
    assert_eq!(stats.top_words(0), String::from(""));
}

#[test]
fn top_words_excludes_stop_words() {
    let mut stats = WordStats::default();
    stats.update(&msg(1, 1, 7, "the the the cat"));
    assert_eq!(stats.top_words(5), String::from("cat"));
}

#[test]
fn filtered_word_frequencies_drops_stop_words_only() {
    let mut stats = WordStats::default();
    stats.update(&msg(1, 1, 7, "the cat sat on the mat"));
    assert_eq!(
        stats.filtered_word_frequencies(),
        vec![(String::from("cat"), 1), (String::from("sat"), 1), (String::from("mat"), 1)]
    );
}

#[test]
fn new_from_message_matches_default_plus_update() {
    let m = msg(9, 3, 7, "one two two");
    let stats = WordStats::new_from_message(&m);
    assert_eq!(stats.word_count, 3);
    assert_eq!(
        stats.word_frequencies,
        vec![(String::from("one"), 1), (String::from("two"), 2)]
    );
    assert_eq!(stats.last_message(), Some(9));
}

#[test]
fn can_absorb_is_true_for_ordinary_messages() {
    let stats = WordStats::default();
    assert!(stats.can_absorb(&msg(1, 1, 7, "anything at all")));
}
