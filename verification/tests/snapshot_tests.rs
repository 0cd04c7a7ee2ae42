use storystats::backfill::Backfill;
use storystats::message::Message;
use storystats::state::{SnapshotError, Store, StoryKey};

fn msg(id: u64, timestamp: i64, author_id: u64, content: &str) -> Message {
    Message { id, timestamp, author_id, content: String::from(content) }
}

const KEY: StoryKey = (10, 20);

fn populated_store() -> Store {
    let mut store = Store::new();
    store.finish_replay();
    let mut backfill = Backfill::new(KEY, 3, 100);
    backfill.fold_message(&msg(3, 30, 7, "the cat ran"));
    backfill.fold_message(&msg(2, 20, 8, "the dog sat"));
    backfill.fold_message(&msg(1, 10, 7, "the cat sat"));
    backfill.commit(&mut store);
    let mut other = Backfill::new((11, 21), 5, 100);
    other.fold_message(&msg(5, 50, 9, "they're here! (\u{00e9}l\u{00e9}phant)"));
    other.commit(&mut store);
    store
}

#[test]
fn snapshot_restore_reproduces_tables_counts_and_dedup() {
    let store = populated_store();
    let bytes = store.snapshot();
    let restored = Store::restore(&bytes).unwrap();

    // A restored store owes one replay pass.
    assert!(restored.replay_needed());

    let before = store.get_channel_data(&KEY).unwrap();
    let after = restored.get_channel_data(&KEY).unwrap();
    assert_eq!(after.general_stats.word_count, before.general_stats.word_count);
    assert_eq!(
        after.general_stats.word_frequencies,
        before.general_stats.word_frequencies
    );
    assert_eq!(after.general_stats.last_message(), before.general_stats.last_message());
    assert_eq!(after.general_stats.top_words(3), before.general_stats.top_words(3));
    assert_eq!(after.get_user(7).unwrap().word_count, 6);
    assert_eq!(after.get_user(8).unwrap().word_count, 3);

    let other = restored.get_channel_data(&(11, 21)).unwrap();
    // "they're" and "here" are stop words; the accented word survives the
    // round trip unchanged.
    assert_eq!(
        other.general_stats.filtered_word_frequencies(),
        vec![(String::from("\u{00e9}l\u{00e9}phant"), 1)]
    );
    assert_eq!(other.general_stats.word_count, 3);
}

#[test]
fn restored_dedup_set_still_refuses_replayed_messages() {
    // The dedup set survives the round trip: a message that was folded
    // before the snapshot does not count again after a restore.
    let store = populated_store();
    let bytes = store.snapshot();
    let mut restored = Store::restore(&bytes).unwrap();
    restored.process_message(&KEY, msg(1, 10, 7, "the cat sat"));
    restored.finish_replay();
    assert_eq!(
        restored.get_channel_data(&KEY).unwrap().general_stats.word_count,
        9
    );
}

#[test]
fn restore_of_empty_tree_round_trips() {
    let store = Store::new();
    let bytes = store.snapshot();
    let restored = Store::restore(&bytes).unwrap();
    assert!(restored.replay_needed());
    assert_eq!(restored.get_unique_server_ids(), Vec::<u64>::new());
}

#[test]
fn restore_refuses_truncated_bytes() {
    let store = populated_store();
    let mut bytes = store.snapshot();
    bytes.pop();
    assert!(matches!(Store::restore(&bytes), Err(SnapshotError::Malformed)));
    assert!(matches!(Store::restore(&Vec::new()), Err(SnapshotError::Malformed)));
}

#[test]
fn restore_refuses_trailing_bytes() {
    let store = populated_store();
    let mut bytes = store.snapshot();
    bytes.push(0);
    assert!(matches!(Store::restore(&bytes), Err(SnapshotError::TrailingData)));
}

#[test]
fn restore_refuses_invalid_character_code() {
    // A word whose character code is a surrogate is not a Unicode scalar
    // value and must be refused.
    let store = populated_store();
    let bytes = store.snapshot();
    // The first encoded word is "the": its first character code sits right
    // after the tree length (8), the server id (8), the channel-list length
    // (8), the channel id (8), the author-list length (8), the author id (8),
    // the word count (8), the table length (8), and the word length (8).
    let mut corrupt = bytes.clone();
    let at = 9 * 8;
    corrupt[at] = 0x00;
    corrupt[at + 1] = 0xd8;
    corrupt[at + 2] = 0x00;
    corrupt[at + 3] = 0x00;
    assert!(matches!(Store::restore(&corrupt), Err(SnapshotError::Malformed)));
}
