//! Feed freshness tracking: per-feed check schedules, detection of items
//! published since a feed was last seen, and the bookkeeping that ties a
//! check cycle together.

pub mod args;
pub mod codec;
pub mod config;
pub mod cycle;
pub mod data;
pub mod detect;
pub mod notify;
pub mod schedule;
pub mod text;
pub mod timestamp;

pub use cycle::run_cycle;
pub use data::initiate_data_from_config;
pub use detect::{check_items, is_item_unseen, FeedItem};
pub use notify::NotificationData;
pub use text::u64_to_string;
