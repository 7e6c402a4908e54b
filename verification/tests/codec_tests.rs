use rss_notify::codec::{encode_config, encode_records, parse_config, parse_records, CodecError};
use rss_notify::config::Config;
use rss_notify::data::Data;

#[test]
fn records_save_then_load_round_trip() {
    let mut data = Data::default();
    data.insert_link_map("https://a.example/feed", "*/5 * * * *");
    data.update_link_map("https://a.example/feed", "Wed, 20 Nov 2024 09:00:00 +0000");
    data.insert_link_map("https://b.example/feed", "0 * * * *");

    let text = encode_records(&data);
    let loaded = parse_records(&text).unwrap();

    assert_eq!(loaded.get_feeds(), data.get_feeds());
    let a = loaded.get_link_map("https://a.example/feed").unwrap();
    assert_eq!(a.frequency(), "*/5 * * * *");
    assert_eq!(a.last_seen(), "Wed, 20 Nov 2024 09:00:00 +0000");
    let b = loaded.get_link_map("https://b.example/feed").unwrap();
    assert_eq!(b.frequency(), "0 * * * *");
    assert_eq!(b.last_seen(), "");
}

#[test]
fn records_round_trip_survives_special_characters() {
    let mut data = Data::default();
    data.insert_link_map("https://odd.example/a\tb\\c\nd", "* * * * *");

    let text = encode_records(&data);
    let loaded = parse_records(&text).unwrap();

    let rec = loaded.get_link_map("https://odd.example/a\tb\\c\nd").unwrap();
    assert_eq!(rec.feed_link(), "https://odd.example/a\tb\\c\nd");
}

#[test]
fn empty_store_round_trips_to_empty_text() {
    let data = Data::default();
    let text = encode_records(&data);
    assert!(text.is_empty());
    let loaded = parse_records(&text).unwrap();
    assert!(loaded.get_feeds().is_empty());
}

#[test]
fn parse_records_rejects_malformed_text() {
    let no_final_break: Vec<char> = "a\tb\tc".chars().collect();
    assert!(matches!(parse_records(&no_final_break), Err(CodecError::Malformed)));

    let wrong_field_count: Vec<char> = "a\tb\n".chars().collect();
    assert!(matches!(parse_records(&wrong_field_count), Err(CodecError::Malformed)));

    let dangling_escape: Vec<char> = "a\\\tb\tc\n".chars().collect();
    assert!(matches!(parse_records(&dangling_escape), Err(CodecError::Malformed)));
}

#[test]
fn parse_records_rejects_duplicate_links() {
    let twice: Vec<char> = "a\tx\t\na\ty\t\n".chars().collect();
    assert!(matches!(parse_records(&twice), Err(CodecError::DuplicateLink)));
}

#[test]
fn parse_records_reads_plain_lines() {
    let text: Vec<char> = "https://a/\t*/5 * * * *\tWed, 20 Nov 2024 09:00:00 +0000\n"
        .chars()
        .collect();
    let loaded = parse_records(&text).unwrap();
    let rec = loaded.get_link_map("https://a/").unwrap();
    assert_eq!(rec.frequency(), "*/5 * * * *");
    assert_eq!(rec.last_seen(), "Wed, 20 Nov 2024 09:00:00 +0000");
}

#[test]
fn config_save_then_load_round_trip() {
    let mut config = Config::default();
    config.add_feed("https://a.example/feed", "*/5 * * * *");
    config.add_feed("https://a.example/feed", "*/5 * * * *");
    config.add_feed("tabs\tand\nbreaks\\", "0 * * * *");

    let text = encode_config(&config);
    let loaded = parse_config(&text).unwrap();

    assert_eq!(loaded.feeds.len(), 3, "duplicate entries survive the trip");
    assert_eq!(loaded.feeds[0].link, "https://a.example/feed");
    assert_eq!(loaded.feeds[1].schedule, "*/5 * * * *");
    assert_eq!(loaded.feeds[2].link, "tabs\tand\nbreaks\\");
    assert_eq!(loaded.feeds[2].schedule, "0 * * * *");
}

#[test]
fn parse_config_rejects_malformed_text() {
    let three_fields: Vec<char> = "a\tb\tc\n".chars().collect();
    assert!(matches!(parse_config(&three_fields), Err(CodecError::Malformed)));
}
