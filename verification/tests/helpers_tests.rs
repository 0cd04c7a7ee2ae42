use storystats::config::GeneralAppConfig;
use storystats::config::WordCloudConfig;
use storystats::feedback::feedback_description;
use storystats::feedback::FeedbackKind;
use storystats::message::Message;
use storystats::permissions::author_is_allowed;
use storystats::permissions::get_truncate_limit;
use storystats::state::Store;
use storystats::utils::SortedHashMap;
use storystats::wordcloud::wordcloud_description;
use storystats::wordcloud::MaskName;
use storystats::wordcloud::WordcloudError;
use storystats::wordcloud::wordcloud_frequencies;
use storystats::backfill::Backfill;

#[test]
fn feedback_usage_matches_all_masks() {
    let desc: &str = feedback_description();
    let match_ = "Kind can be one of: ";
    let kind_index = desc.rfind(match_).unwrap();
    let (_, kinds_from_desc) = desc.split_at(kind_index + match_.len());
    let all_kinds_from_enum_iter: String = FeedbackKind::variants()
        .iter()
        .map(|fbk| String::from(fbk.to_str()))
        .collect::<Vec<String>>()
        .join("|");
    assert_eq!(all_kinds_from_enum_iter, kinds_from_desc);
}

#[test]
fn word_cloud_usage_matches_all_masks() {
    let desc: &str = wordcloud_description();
    let match_ = "Available masks: ";
    let masks_index = desc.rfind(match_).unwrap();
    let (_, masks_from_desc) = desc.split_at(masks_index + match_.len());
    let all_masks_from_enum_iter: String = MaskName::variants()
        .iter()
        .map(|mn| String::from(mn.to_str()))
        .collect::<Vec<String>>()
        .join("|");
    assert_eq!(all_masks_from_enum_iter, masks_from_desc);
}

#[test]
fn feedback_kind_round_trips_and_rejects() {
    for kind in FeedbackKind::variants() {
        assert_eq!(FeedbackKind::from_str(kind.to_str()), Ok(kind));
    }
    let err = FeedbackKind::from_str("nonsense").unwrap_err();
    assert_eq!(err, String::from("Invalid FeedbackKind name nonsense"));
}

#[test]
fn mask_name_round_trips_and_rejects() {
    for mask in MaskName::variants() {
        assert_eq!(MaskName::from_str(mask.to_str()), Ok(mask));
    }
    let err = MaskName::from_str("cube").unwrap_err();
    assert_eq!(err, String::from("Invalid mask name cube"));
}

#[test]
fn config_defaults() {
    let config = GeneralAppConfig::default();
    assert_eq!(config.prefix, "!");
    assert!(config.bot_admin.is_none());
    assert!(config.wordcloud_enabled());
    let wc = WordCloudConfig::default();
    assert_eq!(wc.request_path, "in/");
    assert_eq!(wc.generated_image_path, "out/");
    assert_eq!(wc.timeout_secs, 2);
}

#[test]
fn truncate_limit_rules() {
    assert_eq!(get_truncate_limit(None), Some(5));
    assert_eq!(get_truncate_limit(Some("anything")), Some(5));
    assert_eq!(get_truncate_limit(Some("-full")), None);
}

#[test]
fn allowed_roles_and_owner() {
    assert!(author_is_allowed(190534649548767243, &vec![]));
    assert!(author_is_allowed(1, &vec![String::from("ScrivAdmin")]));
    assert!(author_is_allowed(
        1,
        &vec![String::from("Lurker"), String::from("ScrivMaster")]
    ));
    assert!(!author_is_allowed(1, &vec![String::from("Lurker")]));
    assert!(!author_is_allowed(1, &vec![]));
}

#[test]
fn sorted_map_walks_in_key_order_with_cap() {
    let map: Vec<(u64, &str)> = vec![(3, "c"), (1, "a"), (2, "b")];
    let mut walk = SortedHashMap::new(&map, vec![1, 2, 3], None);
    assert!(!walk.is_truncated());
    assert_eq!(walk.limit(), 3);
    assert_eq!(walk.next(), Some((1, &"a")));
    assert_eq!(walk.next(), Some((2, &"b")));
    assert_eq!(walk.next(), Some((3, &"c")));
    assert_eq!(walk.next(), None);

    let mut capped = SortedHashMap::new(&map, vec![3, 1, 2], Some(2));
    assert!(capped.is_truncated());
    assert_eq!(capped.limit(), 2);
    assert_eq!(capped.next(), Some((3, &"c")));
    assert_eq!(capped.next(), Some((1, &"a")));
    assert_eq!(capped.next(), None);

    let mut high_cap = SortedHashMap::new(&map, vec![1, 2], Some(100));
    assert!(!high_cap.is_truncated());
    assert_eq!(high_cap.limit(), 2);
}

#[test]
fn wordcloud_frequency_selection() {
    let mut store = Store::new();
    store.finish_replay();
    let key = (1u64, 2u64);
    let mut backfill = Backfill::new(key, 9, 100);
    backfill.fold_message(&Message {
        id: 9,
        timestamp: 1,
        author_id: 7,
        content: String::from("the rocket flew"),
    });
    backfill.commit(&mut store);

    let general = wordcloud_frequencies(&store, &key, None).unwrap();
    assert_eq!(
        general,
        vec![(String::from("rocket"), 1), (String::from("flew"), 1)]
    );
    let by_author = wordcloud_frequencies(&store, &key, Some(7)).unwrap();
    assert_eq!(by_author, general);
    assert_eq!(
        wordcloud_frequencies(&store, &key, Some(8)),
        Err(WordcloudError::UserNotFound)
    );
    assert_eq!(
        wordcloud_frequencies(&store, &(9, 9), None),
        Err(WordcloudError::ChannelNotInitialised)
    );
}
