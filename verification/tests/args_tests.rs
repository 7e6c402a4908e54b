use rss_notify::args::{run_add, run_remove, Argument, ArgumentOptions};
use rss_notify::data::Data;
use rss_notify::u64_to_string;

fn argv(parts: &[&str]) -> Vec<String> {
    parts.iter().map(|p| String::from(*p)).collect()
}

#[test]
fn argument_new_parses_each_command() {
    let cases = [
        ("check", ArgumentOptions::Check),
        ("add", ArgumentOptions::Add),
        ("remove", ArgumentOptions::Remove),
        ("list", ArgumentOptions::List),
        ("help", ArgumentOptions::Help),
    ];
    for (word, expected) in cases {
        let args = argv(&["prog", word]);
        let parsed = Argument::new(&args).unwrap();
        assert_eq!(parsed.specified_option, expected);
    }
}

#[test]
fn argument_new_rejects_missing_command() {
    let args = argv(&["prog"]);
    assert_eq!(Argument::new(&args).unwrap_err(), "No command provided");
}

#[test]
fn argument_new_rejects_unknown_command() {
    let args = argv(&["prog", "frobnicate"]);
    assert_eq!(
        Argument::new(&args).unwrap_err(),
        "Invalid command: frobnicate"
    );
}

#[test]
fn run_add_records_the_feed() {
    let mut data = Data::default();
    let args = argv(&["prog", "add", "https://test/", "* * * * *"]);
    assert!(run_add(&args, &mut data).is_ok());
    let rec = data.get_link_map("https://test/").unwrap();
    assert_eq!(rec.frequency(), "* * * * *");
    assert_eq!(rec.last_seen(), "");
}

#[test]
fn run_add_requires_link_and_frequency() {
    let mut data = Data::default();
    let args = argv(&["prog", "add"]);
    assert_eq!(run_add(&args, &mut data).unwrap_err(), "No link provided");
    let args = argv(&["prog", "add", "https://test/"]);
    assert_eq!(
        run_add(&args, &mut data).unwrap_err(),
        "No frequency provided"
    );
    assert!(data.get_feeds().is_empty());
}

#[test]
fn run_remove_drops_the_feed() {
    let mut data = Data::default();
    data.insert_link_map("https://test/", "* * * * *");
    let args = argv(&["prog", "remove", "https://test/"]);
    assert!(run_remove(&args, &mut data).is_ok());
    assert!(data.get_feeds().is_empty());
}

#[test]
fn run_remove_requires_link() {
    let mut data = Data::default();
    let args = argv(&["prog", "remove"]);
    assert_eq!(run_remove(&args, &mut data).unwrap_err(), "No link provided");
}

#[test]
fn u64_to_string_exact_values() {
    assert_eq!(u64_to_string(0), "0");
    assert_eq!(u64_to_string(7), "7");
    assert_eq!(u64_to_string(10), "10");
    assert_eq!(u64_to_string(305), "305");
    assert_eq!(u64_to_string(u64::MAX), "18446744073709551615");
}
