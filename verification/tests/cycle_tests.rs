use rss_notify::cycle::{run_cycle, CheckOutcome, FeedDocument, FetchResult};
use rss_notify::data::Data;
use rss_notify::FeedItem;

fn doc(title: &str, dates: &[&str]) -> FeedDocument {
    FeedDocument {
        title: String::from(title),
        items: dates
            .iter()
            .map(|d| FeedItem {
                title: Some(format!("item at {}", d)),
                link: Some(String::from("https://example.com/item")),
                description: None,
                pub_date: Some(String::from(*d)),
            })
            .collect(),
    }
}

#[test]
fn failed_fetch_leaves_record_and_others_proceed() {
    let mut data = Data::default();
    data.insert_link_map("https://a.example/", "* * * * *");
    data.update_link_map("https://a.example/", "Wed, 20 Nov 2024 09:00:00 +0000");
    data.insert_link_map("https://b.example/", "* * * * *");
    data.update_link_map("https://b.example/", "Wed, 20 Nov 2024 09:00:00 +0000");

    let fetches = vec![
        (
            String::from("https://a.example/"),
            FetchResult::FetchFailed(String::from("connection refused")),
        ),
        (
            String::from("https://b.example/"),
            FetchResult::Fetched(doc("Feed B", &["Wed, 20 Nov 2024 10:00:00 +0000"])),
        ),
    ];

    let (outcomes, notifications) = run_cycle(&mut data, &fetches);

    assert_eq!(outcomes.len(), 2);
    assert_eq!(outcomes[0].0, "https://a.example/");
    assert!(matches!(outcomes[0].1, CheckOutcome::FetchFailed(_)));
    assert_eq!(outcomes[1].0, "https://b.example/");
    assert!(matches!(outcomes[1].1, CheckOutcome::Updated(1)));

    let a = data.get_link_map("https://a.example/").unwrap();
    assert_eq!(
        a.last_seen(),
        "Wed, 20 Nov 2024 09:00:00 +0000",
        "a failed fetch leaves the record untouched"
    );
    let b = data.get_link_map("https://b.example/").unwrap();
    assert_eq!(b.last_seen(), "Wed, 20 Nov 2024 10:00:00 +0000");

    assert_eq!(notifications.len(), 1);
    assert_eq!(notifications[0].title, "Feed B");
    assert_eq!(notifications[0].unseen_items_count, 1);
    assert_eq!(
        notifications[0].create_subject(),
        "Feed B, 1 unread items!"
    );
}

#[test]
fn no_new_items_is_no_change() {
    let mut data = Data::default();
    data.insert_link_map("https://a.example/", "* * * * *");
    data.update_link_map("https://a.example/", "Wed, 20 Nov 2024 10:00:00 +0000");

    let fetches = vec![(
        String::from("https://a.example/"),
        FetchResult::Fetched(doc("Feed A", &["Wed, 20 Nov 2024 09:00:00 +0000"])),
    )];

    let (outcomes, notifications) = run_cycle(&mut data, &fetches);
    assert!(matches!(outcomes[0].1, CheckOutcome::NoChange));
    assert!(notifications.is_empty());
    let a = data.get_link_map("https://a.example/").unwrap();
    assert_eq!(a.last_seen(), "Wed, 20 Nov 2024 10:00:00 +0000");
}

#[test]
fn first_check_seeds_marker_without_notification() {
    let mut data = Data::default();
    data.insert_link_map("https://a.example/", "* * * * *");

    let fetches = vec![(
        String::from("https://a.example/"),
        FetchResult::Fetched(doc(
            "Feed A",
            &[
                "Wed, 20 Nov 2024 10:00:00 +0000",
                "Wed, 20 Nov 2024 09:00:00 +0000",
            ],
        )),
    )];

    let (outcomes, notifications) = run_cycle(&mut data, &fetches);
    assert!(matches!(outcomes[0].1, CheckOutcome::Updated(2)));
    assert!(
        notifications.is_empty(),
        "the very first check must not raise a notification"
    );
    let a = data.get_link_map("https://a.example/").unwrap();
    assert_eq!(
        a.last_seen(),
        "Wed, 20 Nov 2024 10:00:00 +0000",
        "the marker is seeded with the newest observed timestamp"
    );
}

#[test]
fn notification_carries_newest_unseen_item() {
    let mut data = Data::default();
    data.insert_link_map("https://a.example/", "* * * * *");
    data.update_link_map("https://a.example/", "Wed, 20 Nov 2024 08:30:00 +0000");

    let fetches = vec![(
        String::from("https://a.example/"),
        FetchResult::Fetched(doc(
            "Feed A",
            &[
                "Wed, 20 Nov 2024 10:00:00 +0000",
                "Wed, 20 Nov 2024 09:00:00 +0000",
                "Wed, 20 Nov 2024 08:00:00 +0000",
            ],
        )),
    )];

    let (outcomes, notifications) = run_cycle(&mut data, &fetches);
    assert!(matches!(outcomes[0].1, CheckOutcome::Updated(2)));
    assert_eq!(notifications.len(), 1);
    assert_eq!(
        notifications[0].latest_item.pub_date.as_deref(),
        Some("Wed, 20 Nov 2024 10:00:00 +0000")
    );
    let a = data.get_link_map("https://a.example/").unwrap();
    assert_eq!(a.last_seen(), "Wed, 20 Nov 2024 10:00:00 +0000");
}

#[test]
fn parse_failure_is_reported_per_feed() {
    let mut data = Data::default();
    data.insert_link_map("https://a.example/", "* * * * *");

    let fetches = vec![(
        String::from("https://a.example/"),
        FetchResult::ParseFailed(String::from("not a feed")),
    )];

    let (outcomes, notifications) = run_cycle(&mut data, &fetches);
    assert!(matches!(&outcomes[0].1, CheckOutcome::ParseFailed(m) if m == "not a feed"));
    assert!(notifications.is_empty());
}
