use rss_notify::{FeedItem, NotificationData};

#[test]
fn test_notification_create_strings() {
    let item = FeedItem {
        title: Some(String::from("Hello World")),
        link: Some(String::from("https://example.com")),
        description: None,
        pub_date: Some(String::from("Wed, 20 Nov 2024 11:00:00 +0000")),
    };

    let notif = NotificationData {
        title: String::from("My Feed"),
        unseen_items_count: 5,
        latest_item: item,
    };

    let subject = notif.create_subject();
    let body = notif.create_body();

    assert_eq!(subject, String::from("My Feed, 5 unread items!"));
    assert!(
        body.contains("Hello World"),
        "Body should contain the title"
    );
}

#[test]
fn notification_body_untitled_item() {
    let notif = NotificationData {
        title: String::from("My Feed"),
        unseen_items_count: 1,
        latest_item: FeedItem { title: None, link: None, description: None, pub_date: None },
    };
    assert_eq!(
        notif.create_body(),
        "Latest Item: <i>Untitled</i>\nClick to read more!"
    );
    assert_eq!(notif.action_link(), "");
}

#[test]
fn notification_body_exact() {
    let notif = NotificationData {
        title: String::from("My Feed"),
        unseen_items_count: 12,
        latest_item: FeedItem {
            title: Some(String::from("Hello World")),
            link: Some(String::from("https://example.com")),
            description: None,
            pub_date: None,
        },
    };
    assert_eq!(
        notif.create_body(),
        "Latest Item: <i>Hello World</i>\nClick to read more!"
    );
    assert_eq!(notif.create_subject(), "My Feed, 12 unread items!");
    assert_eq!(notif.action_link(), "https://example.com");
}

#[test]
fn notification_body_with_description() {
    let notif = NotificationData {
        title: String::from("My Feed"),
        unseen_items_count: 1,
        latest_item: FeedItem {
            title: Some(String::from("Hello World")),
            link: None,
            description: Some(String::from("A short summary.")),
            pub_date: None,
        },
    };
    assert_eq!(
        notif.create_body(),
        "Latest Item: <i>Hello World</i>\nA short summary.\nClick to read more!"
    );
}

#[test]
fn notification_body_truncates_long_description() {
    let long = "x".repeat(200);
    let notif = NotificationData {
        title: String::from("My Feed"),
        unseen_items_count: 1,
        latest_item: FeedItem {
            title: Some(String::from("Hello World")),
            link: None,
            description: Some(long),
            pub_date: None,
        },
    };
    let body = notif.create_body();
    let expected_middle = format!("{}...", "x".repeat(120));
    assert_eq!(
        body,
        format!(
            "Latest Item: <i>Hello World</i>\n{}\nClick to read more!",
            expected_middle
        )
    );
}
