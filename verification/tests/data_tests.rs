use rss_notify::config::Config;
use rss_notify::data::{Data, FeedLinkData};
use rss_notify::initiate_data_from_config;

#[test]
fn test_insert_link_map() {
    let mut data: Data = Data::default();

    let _ = data.insert_link_map("https://test/", "* * 10 * *");

    assert_eq!(data.get_feeds().len(), 1, "Just inserted a feed, should be 1");
}

#[test]
fn test_clear_data() {
    let mut data: Data = Data::default();

    let _ = data.insert_link_map("https://test/", "* * 10 * *");

    assert_eq!(
        data.get_feeds().len(),
        1,
        "Inserted a feed before save, should be 1"
    );
    data.clear();
    assert!(data.get_feeds().is_empty(), "Should be empty after clearing");
}

#[test]
fn test_get_feeds() {
    let mut data: Data = Data::default();

    let _ = data.insert_link_map("https://test/", "* * 10 * *");
    let feeds = data.get_feeds();
    assert!(!feeds.is_empty(), "Should get back one feed");
}

#[test]
fn test_remove_feed() {
    let mut data: Data = Data::default();

    let _ = data.insert_link_map("https://test/", "* * 10 * *");
    let feeds = data.get_feeds();
    assert!(!feeds.is_empty(), "Should get back one feed");

    data.remove_link_map("https://test/");
    let feeds = data.get_feeds();
    assert!(feeds.is_empty(), "Should get empty now");
}

#[test]
fn test_if_time_to_check() {
    let now = chrono::Local::now();
    let sample_last_seen = now.checked_sub_days(chrono::Days::new(10));
    let sample = FeedLinkData::new(
        String::from("https://test.com/"),
        String::from("* * 10 * *"),
        sample_last_seen.unwrap().to_rfc2822(),
    );
    assert!(
        sample.is_frequency_check_due().unwrap(),
        "Today is 10 days from 10 days ago..."
    );
}

#[test]
fn test_initiate_data_from_config_behavior() {
    let mut config = Config::default();
    config.add_feed("link1", "* * * * *");
    config.add_feed("link2", "0 * * * *");

    let mut data = Data::default();
    initiate_data_from_config(&config, &mut data);

    let feeds = data.get_feeds();
    assert_eq!(feeds.len(), 2);
    assert!(feeds.contains(&String::from("link1")));
    assert!(feeds.contains(&String::from("link2")));
}

#[test]
fn initiate_keeps_history_and_drops_obsolete() {
    let mut data = Data::default();
    data.insert_link_map("https://kept.example/", "* * * * *");
    data.update_link_map("https://kept.example/", "Wed, 20 Nov 2024 09:00:00 +0000");
    data.insert_link_map("https://gone.example/", "* * * * *");

    let mut config = Config::default();
    config.add_feed("https://kept.example/", "* * * * *");
    config.add_feed("https://new.example/", "0 * * * *");

    initiate_data_from_config(&config, &mut data);

    let kept = data.get_link_map("https://kept.example/").unwrap();
    assert_eq!(kept.last_seen(), "Wed, 20 Nov 2024 09:00:00 +0000");
    let fresh = data.get_link_map("https://new.example/").unwrap();
    assert_eq!(fresh.last_seen(), "");
    assert_eq!(fresh.frequency(), "0 * * * *");
    assert!(data.get_link_map("https://gone.example/").is_none());
}

#[test]
fn insert_existing_updates_schedule_only() {
    let mut data = Data::default();
    data.insert_link_map("https://test/", "* * * * *");
    data.update_link_map("https://test/", "Wed, 20 Nov 2024 09:00:00 +0000");

    data.insert_link_map("https://test/", "0 * * * *");

    let rec = data.get_link_map("https://test/").unwrap();
    assert_eq!(rec.frequency(), "0 * * * *");
    assert_eq!(
        rec.last_seen(),
        "Wed, 20 Nov 2024 09:00:00 +0000",
        "an insert over an existing feed must not reset its history"
    );
    assert_eq!(data.get_feeds().len(), 1);
}

#[test]
fn advance_is_monotone() {
    let mut data = Data::default();
    data.insert_link_map("https://test/", "* * * * *");

    data.update_link_map("https://test/", "Wed, 20 Nov 2024 10:00:00 +0000");
    let rec = data.get_link_map("https://test/").unwrap();
    assert_eq!(rec.last_seen(), "Wed, 20 Nov 2024 10:00:00 +0000");

    data.update_link_map("https://test/", "Wed, 20 Nov 2024 09:00:00 +0000");
    let rec = data.get_link_map("https://test/").unwrap();
    assert_eq!(
        rec.last_seen(),
        "Wed, 20 Nov 2024 10:00:00 +0000",
        "a stale advance must be ignored"
    );

    data.update_link_map("https://test/", "Wed, 20 Nov 2024 10:00:00 +0000");
    let rec = data.get_link_map("https://test/").unwrap();
    assert_eq!(rec.last_seen(), "Wed, 20 Nov 2024 10:00:00 +0000");

    data.update_link_map("https://test/", "Wed, 20 Nov 2024 11:00:00 +0000");
    let rec = data.get_link_map("https://test/").unwrap();
    assert_eq!(rec.last_seen(), "Wed, 20 Nov 2024 11:00:00 +0000");
}

#[test]
fn advance_ignores_unparsable_timestamp() {
    let mut rec = FeedLinkData::new(
        String::from("https://test/"),
        String::from("* * * * *"),
        String::from("Wed, 20 Nov 2024 10:00:00 +0000"),
    );
    rec.update_last_seen("not a date");
    assert_eq!(rec.last_seen(), "Wed, 20 Nov 2024 10:00:00 +0000");
}
