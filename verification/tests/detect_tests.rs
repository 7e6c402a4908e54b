use rss_notify::{check_items, is_item_unseen, FeedItem};

fn item_with_date(date: &str) -> FeedItem {
    FeedItem {
        title: None,
        link: None,
        description: None,
        pub_date: Some(String::from(date)),
    }
}

#[test]
fn test_is_item_unseen_true() {
    let pub_date = "Wed, 20 Nov 2024 10:00:00 +0000";
    let last_seen = "Wed, 20 Nov 2024 09:00:00 +0000";

    assert!(
        is_item_unseen(pub_date, last_seen).unwrap(),
        "Item should be unseen"
    );
}

#[test]
fn test_is_item_unseen_false() {
    let pub_date = "Wed, 20 Nov 2024 08:00:00 +0000";
    let last_seen = "Wed, 20 Nov 2024 09:00:00 +0000";

    assert!(
        !is_item_unseen(pub_date, last_seen).unwrap(),
        "Item should be seen"
    );
}

#[test]
fn is_item_unseen_tolerates_whitespace() {
    assert!(is_item_unseen(
        "  Wed, 20 Nov 2024 10:00:00 +0000  ",
        "Wed, 20 Nov 2024 09:00:00 +0000"
    )
    .unwrap());
}

#[test]
fn is_item_unseen_rejects_malformed() {
    assert!(is_item_unseen("not a date", "Wed, 20 Nov 2024 09:00:00 +0000").is_err());
    assert!(is_item_unseen("Wed, 20 Nov 2024 09:00:00 +0000", "").is_err());
}

#[test]
fn unseen_items_newest_first_scenario() {
    let items = vec![
        item_with_date("Wed, 20 Nov 2024 10:00:00 +0000"),
        item_with_date("Wed, 20 Nov 2024 09:00:00 +0000"),
        item_with_date("Wed, 20 Nov 2024 08:00:00 +0000"),
    ];
    let last_seen = "Wed, 20 Nov 2024 08:30:00 +0000";

    let unseen = check_items(&items, last_seen);

    assert_eq!(unseen.len(), 2);
    assert_eq!(
        unseen[0].pub_date.as_deref(),
        Some("Wed, 20 Nov 2024 10:00:00 +0000"),
        "the newest unseen item comes first"
    );
    assert_eq!(
        unseen[1].pub_date.as_deref(),
        Some("Wed, 20 Nov 2024 09:00:00 +0000")
    );
}

#[test]
fn unseen_items_stop_at_first_seen() {
    let items = vec![
        item_with_date("Wed, 20 Nov 2024 08:00:00 +0000"),
        item_with_date("Wed, 20 Nov 2024 10:00:00 +0000"),
    ];
    let unseen = check_items(&items, "Wed, 20 Nov 2024 09:00:00 +0000");
    assert!(
        unseen.is_empty(),
        "the walk stops at the first item that is not newer"
    );
}

#[test]
fn unseen_items_skip_undated() {
    let items = vec![
        FeedItem { title: None, link: None, description: None, pub_date: None },
        item_with_date("Wed, 20 Nov 2024 10:00:00 +0000"),
    ];
    let unseen = check_items(&items, "Wed, 20 Nov 2024 09:00:00 +0000");
    assert_eq!(unseen.len(), 1, "an undated item decides nothing");
}

#[test]
fn unseen_items_skip_malformed_date() {
    let items = vec![
        item_with_date("never"),
        item_with_date("Wed, 20 Nov 2024 10:00:00 +0000"),
    ];
    let unseen = check_items(&items, "Wed, 20 Nov 2024 09:00:00 +0000");
    assert_eq!(unseen.len(), 1, "a malformed date decides nothing");
}

#[test]
fn unseen_items_bootstrap_takes_all_dated() {
    let items = vec![
        item_with_date("Wed, 20 Nov 2024 10:00:00 +0000"),
        item_with_date("not a date"),
        item_with_date("Wed, 20 Nov 2024 08:00:00 +0000"),
    ];
    let unseen = check_items(&items, "");
    assert_eq!(
        unseen.len(),
        2,
        "with no last-seen marker every parsable dated item is unseen"
    );
}

#[test]
fn test_check_all_feeds_inner_logic_mocked() {
    let item = FeedItem {
        title: Some(String::from("Brand New")),
        link: Some(String::from("https://example.com/new")),
        description: None,
        pub_date: Some(String::from("Wed, 20 Nov 2024 11:00:00 +0000")),
    };

    let items = vec![item];

    let feed_data = rss_notify::data::FeedLinkData::new(
        String::from("mock://test"),
        String::from("* * * * *"),
        String::from("Wed, 20 Nov 2024 10:00:00 +0000"),
    );

    let unseen = check_items(&items, feed_data.last_seen());

    assert_eq!(unseen.len(), 1);
    assert_eq!(unseen.first().unwrap().title.as_deref().unwrap(), "Brand New");
}
