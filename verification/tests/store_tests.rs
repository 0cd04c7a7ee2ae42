use storystats::backfill::Backfill;
use storystats::message::Message;
use storystats::state::{ChannelData, InitError, Store, StoryKey};

fn msg(id: u64, timestamp: i64, author_id: u64, content: &str) -> Message {
    Message { id, timestamp, author_id, content: String::from(content) }
}

fn live_store() -> Store {
    let mut store = Store::new();
    store.finish_replay();
    store
}

const KEY: StoryKey = (10, 20);

#[test]
fn backfill_scenario_counts_and_top_words() {
    // Channel with no prior data; backfill finds three historical messages.
    let mut store = live_store();
    assert!(store.begin_initialization(&KEY).is_ok());
    let mut backfill = Backfill::new(KEY, 3, 100);
    backfill.fold_message(&msg(3, 30, 7, "the cat ran"));
    backfill.fold_message(&msg(2, 20, 8, "the dog sat"));
    backfill.fold_message(&msg(1, 10, 7, "the cat sat"));
    backfill.commit(&mut store);

    assert!(store.channel_data_exists(&KEY));
    assert!(!store.is_initialising(&KEY));
    let channel = store.get_channel_data(&KEY).unwrap();
    assert_eq!(channel.general_stats.word_count, 9);
    let freqs = &channel.general_stats.word_frequencies;
    assert!(freqs.contains(&(String::from("the"), 3)));
    assert!(freqs.contains(&(String::from("cat"), 2)));
    assert!(freqs.contains(&(String::from("sat"), 2)));
    assert_eq!(channel.general_stats.top_words(2), String::from("sat, cat"));
}

#[test]
fn backfill_cursor_tracks_oldest_timestamp() {
    // Identifier order and timestamp order disagree: the cursor must follow
    // the oldest timestamp, not the lowest identifier seen last.
    let mut backfill = Backfill::new(KEY, 50, 1000);
    assert_eq!(backfill.cursor(), 50);
    backfill.fold_message(&msg(40, 400, 7, "a"));
    assert_eq!(backfill.cursor(), 40);
    backfill.fold_message(&msg(45, 200, 7, "b"));
    assert_eq!(backfill.cursor(), 45);
    backfill.fold_message(&msg(30, 300, 7, "c"));
    assert_eq!(backfill.cursor(), 45);
}

#[test]
fn process_message_for_uninitialized_key_is_dropped() {
    // No ChannelData is created, no error is raised, and the key stays
    // untracked.
    let mut store = live_store();
    store.process_message(&KEY, msg(1, 10, 7, "hello there"));
    assert!(!store.channel_data_exists(&KEY));
    assert!(store.get_channel_data(&KEY).is_none());
}

#[test]
fn begin_initialization_mutual_exclusion() {
    let mut store = live_store();
    assert_eq!(store.begin_initialization(&KEY), Ok(()));
    assert_eq!(
        store.begin_initialization(&KEY),
        Err(InitError::AlreadyInitialising)
    );
    // After a commit the key reports as already initialised instead.
    let backfill = Backfill::new(KEY, 1, 100);
    backfill.commit(&mut store);
    assert_eq!(
        store.begin_initialization(&KEY),
        Err(InitError::AlreadyInitialised)
    );
}

#[test]
fn abort_initialization_allows_retry() {
    let mut store = live_store();
    assert_eq!(store.begin_initialization(&KEY), Ok(()));
    store.abort_initialization(&KEY);
    assert!(!store.is_initialising(&KEY));
    assert_eq!(store.begin_initialization(&KEY), Ok(()));
}

#[test]
fn replay_gating_queues_then_applies_fifo() {
    // Messages accepted while replay is pending appear in no aggregate until
    // finish_replay runs, then exactly once, in arrival order.
    let mut store = Store::new();
    assert!(store.replay_needed());
    let backfill = Backfill::new(KEY, 1, 100);
    backfill.commit(&mut store);
    store.process_message(&KEY, msg(1, 10, 7, "one"));
    store.process_message(&KEY, msg(2, 30, 7, "two words"));
    store.process_message(&KEY, msg(3, 20, 7, "three"));
    {
        let channel = store.get_channel_data(&KEY).unwrap();
        assert_eq!(channel.general_stats.word_count, 0);
    }
    store.finish_replay();
    assert!(!store.replay_needed());
    let channel = store.get_channel_data(&KEY).unwrap();
    assert_eq!(channel.general_stats.word_count, 4);
    // FIFO order: the recency marker is the id with the largest timestamp.
    assert_eq!(channel.general_stats.last_message(), Some(2));
    // Live messages now fold directly.
    store.process_message(&KEY, msg(4, 40, 7, "four"));
    assert_eq!(
        store.get_channel_data(&KEY).unwrap().general_stats.word_count,
        5
    );
}

#[test]
fn dedup_across_backfill_and_replay() {
    // The same message delivered via backfill and again via replay counts
    // once.
    let mut store = Store::new();
    let same = msg(5, 50, 7, "unique words here");
    store.process_message(&KEY, msg(5, 50, 7, "unique words here"));
    let mut backfill = Backfill::new(KEY, 5, 100);
    backfill.fold_message(&same);
    backfill.commit(&mut store);
    store.finish_replay();
    let channel = store.get_channel_data(&KEY).unwrap();
    assert_eq!(channel.general_stats.word_count, 3);
    assert_eq!(channel.author_stats.len(), 1);
    assert_eq!(channel.author_stats[0].1.word_count, 3);
}

#[test]
fn per_author_and_general_stats_both_fold() {
    let mut store = live_store();
    let backfill = Backfill::new(KEY, 1, 100);
    backfill.commit(&mut store);
    store.process_message(&KEY, msg(1, 10, 7, "alpha beta"));
    store.process_message(&KEY, msg(2, 20, 8, "gamma"));
    let channel = store.get_channel_data(&KEY).unwrap();
    assert_eq!(channel.general_stats.word_count, 3);
    assert_eq!(channel.get_user(7).unwrap().word_count, 2);
    assert_eq!(channel.get_user(8).unwrap().word_count, 1);
    assert!(channel.get_user(9).is_none());
}

#[test]
fn queries_over_servers_and_channels() {
    let mut store = live_store();
    for key in [(2u64, 21u64), (1, 11), (2, 22)] {
        let mut backfill = Backfill::new(key, 1, 100);
        backfill.fold_message(&msg(
            key.1,
            key.1 as i64,
            7,
            "hello",
        ));
        backfill.commit(&mut store);
    }
    assert_eq!(store.get_unique_server_ids(), vec![1, 2]);
    assert_eq!(store.get_all_channels_in_server(2), vec![21, 22]);
    assert_eq!(store.get_all_channels_in_server(9), Vec::<u64>::new());
    let keys = store.story_keys_with_last_message();
    assert_eq!(keys, vec![((2, 21), 21), ((2, 22), 22), ((1, 11), 11)]);
    let server = store.get_server_data(2).unwrap();
    assert_eq!(server.get_all_channel_ids(), vec![21, 22]);
    assert_eq!(
        server.channel_ids_with_last_message(),
        vec![(21, 21), (22, 22)]
    );
}

#[test]
fn channels_ranked_by_wordcount_for_user() {
    let mut store = live_store();
    for (channel, text) in [(21u64, "one"), (22, "one two three"), (23, "one two")] {
        let key = (1u64, channel);
        let mut backfill = Backfill::new(key, 1, 100);
        backfill.fold_message(&msg(channel, 1, 7, text));
        backfill.commit(&mut store);
    }
    let server = store.get_server_data(1).unwrap();
    assert_eq!(
        server.channel_ids_by_wordcount_for_user(7),
        vec![(22, 3), (23, 2), (21, 1)]
    );
    assert_eq!(server.channel_ids_by_wordcount_for_user(8), Vec::<(u64, u64)>::new());
}

#[test]
fn committing_twice_replaces_channel_data() {
    let mut store = live_store();
    let mut first = ChannelData::default();
    first.update(&msg(1, 10, 7, "old text"));
    store.insert_channel_data_maybe_create_server_data(&KEY, first);
    let second = ChannelData::default();
    store.insert_channel_data_maybe_create_server_data(&KEY, second);
    assert_eq!(store.get_channel_data(&KEY).unwrap().general_stats.word_count, 0);
}
