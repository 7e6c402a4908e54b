use rss_notify::config::Config;

#[test]
fn add_feed_to_config() {
    let mut config: Config = Config::default();
    let url = "https://feeds.npr.org/1001/rss.xml";
    let schedule = "0/5 * * * * *";
    config.add_feed(url, schedule);
    assert_eq!(config.feeds[0].link, "https://feeds.npr.org/1001/rss.xml");
}

#[test]
fn remove_feed_from_config() {
    let mut config: Config = Config::default();
    let url = "https://feeds.npr.org/1001/rss.xml";
    let schedule = "0/5 * * * * *";

    config.add_feed(url, schedule);
    assert_eq!(config.feeds.len(), 1);

    assert!(config.remove_feed(0).is_ok());
    assert_eq!(config.feeds.len(), 0);
}

#[test]
fn list_feeds() {
    let mut config: Config = Config::default();
    let url = "https://feeds.npr.org/1001/rss.xml";
    let schedule = "0/5 * * * * *";
    config.add_feed(url, schedule);
    let output: String = config.list_feeds();
    assert_eq!(
        output.trim(),
        format!("0: {} - {}", url, schedule),
        "list feeds output mistmach"
    );
}

#[test]
fn test_clear_feeds() {
    let mut config: Config = Config::default();
    config.add_feed("https://feeds.npr.org/1001/rss.xml", "0/5 * * * * *");

    config.clear();

    assert_eq!(config.feeds.len(), 0, "Should be empty...");
}

#[test]
fn list_feeds_several_lines() {
    let mut config: Config = Config::default();
    config.add_feed("https://a.example/feed", "* * * * *");
    config.add_feed("https://b.example/feed", "0 * * * *");
    let output = config.list_feeds();
    assert_eq!(
        output,
        "0: https://a.example/feed - * * * * *\n1: https://b.example/feed - 0 * * * *\n"
    );
}

#[test]
fn remove_feed_out_of_bounds() {
    let mut config: Config = Config::default();
    config.add_feed("https://a.example/feed", "* * * * *");
    let r = config.remove_feed(1);
    assert_eq!(r, Err("Feed index is out of bounds."));
    assert_eq!(config.feeds.len(), 1);
}
