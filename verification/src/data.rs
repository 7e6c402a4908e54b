//! The feed record store: one record per subscribed feed, holding its
//! check schedule and the timestamp of the newest item seen so far.

use vstd::prelude::*;

use crate::config::{Config, Feed};
use crate::schedule::{cron_next_after, cron_valid, ScheduleError};
use crate::text::str_eq;
use crate::timestamp::ts_epoch;

verus! {

/// The record of one subscribed feed: its URL, its cron-style check
/// schedule, and the last-seen marker — the publish timestamp of the newest
/// item already observed, empty for a feed never yet checked.
pub struct FeedLinkData {
    pub feed_link: String,
    pub frequency: String,
    pub last_seen: String,
}

/// Whether an advance of the last-seen marker to `ts` takes effect: `ts`
/// must denote an instant, and the current marker must either denote none
/// (absent or unreadable) or denote a strictly earlier one.
pub open spec fn should_advance(cur: Seq<char>, ts: Seq<char>) -> bool {
    ts_epoch(ts) is Some && (ts_epoch(cur) is None || ts_epoch(ts)->0 > ts_epoch(cur)->0)
}

/// The last-seen marker after an advance to `ts`: `ts` where the advance
/// takes effect, the current marker otherwise.
pub open spec fn advance_spec(cur: Seq<char>, ts: Seq<char>) -> Seq<char> {
    if should_advance(cur, ts) {
        ts
    } else {
        cur
    }
}

/// Advancing the marker to a timestamp and then to any second value that
/// does not denote a strictly later instant leaves the marker at the first
/// timestamp: advances are monotone, and a repeated or stale advance is
/// ignored.
pub proof fn lemma_advance_monotone(cur: Seq<char>, t: Seq<char>, t2: Seq<char>)
    requires
        should_advance(cur, t),
        ts_epoch(t2) is Some ==> ts_epoch(t2)->0 <= ts_epoch(t)->0,
    ensures
        advance_spec(advance_spec(cur, t), t2) == t,
{
}

impl Clone for FeedLinkData {
    fn clone(&self) -> (r: Self)
        ensures
            r == *self,
    {
        FeedLinkData {
            feed_link: self.feed_link.clone(),
            frequency: self.frequency.clone(),
            last_seen: self.last_seen.clone(),
        }
    }
}

impl FeedLinkData {
    /// Builds a record from its three parts.
    pub fn new(feed_link: String, frequency: String, last_seen: String) -> (r: Self)
        ensures
            r.feed_link == feed_link,
            r.frequency == frequency,
            r.last_seen == last_seen,
    {
        FeedLinkData { feed_link, frequency, last_seen }
    }

    /// The feed's URL.
    pub fn feed_link(&self) -> (r: &str)
        ensures
            r@ == self.feed_link@,
    {
        self.feed_link.as_str()
    }

    /// The feed's cron-style check schedule.
    pub fn frequency(&self) -> (r: &str)
        ensures
            r@ == self.frequency@,
    {
        self.frequency.as_str()
    }

    /// The last-seen marker, empty for a feed never yet checked.
    pub fn last_seen(&self) -> (r: &str)
        ensures
            r@ == self.last_seen@,
    {
        self.last_seen.as_str()
    }

    /// Advances the last-seen marker to the given timestamp, if it denotes
    /// an instant strictly later than the current marker's.
    pub fn update_last_seen(&mut self, ts: &str)
        ensures
            final(self).feed_link == old(self).feed_link,
            final(self).frequency == old(self).frequency,
            final(self).last_seen@ == advance_spec(old(self).last_seen@, ts@),
            !should_advance(old(self).last_seen@, ts@) ==> final(self).last_seen == old(self).last_seen,
    {
        let new_ts = crate::timestamp::parse_timestamp(ts);
        if let Some(t) = new_ts {
            let adv = match crate::timestamp::parse_timestamp(self.last_seen.as_str()) {
                None => true,
                Some(c) => t > c,
            };
            if adv {
                self.last_seen = ts.to_owned();
            }
        }
    }

    /// Decides whether this feed is due for a check now, against the
    /// current instant: a never-checked feed is always due, and otherwise
    /// the first schedule occurrence strictly after the last-seen instant
    /// must have been reached.
    pub fn is_frequency_check_due(&self) -> (r: Result<bool, ScheduleError>)
        ensures
            match r {
                Ok(b) => cron_valid(self.frequency@) && (self.last_seen@.len() == 0 ==> b) && (
                self.last_seen@.len() > 0 ==> ts_epoch(self.last_seen@) is Some && (ts_epoch(
                    self.last_seen@,
                ) matches Some(seen) && cron_next_after(self.frequency@, seen) is Some)),
                Err(ScheduleError::InvalidExpression) => !cron_valid(self.frequency@),
                Err(ScheduleError::InvalidTimestamp) => cron_valid(self.frequency@)
                    && self.last_seen@.len() > 0 && ts_epoch(self.last_seen@) is None,
                Err(ScheduleError::NoOccurrence) => cron_valid(self.frequency@)
                    && self.last_seen@.len() > 0 && (ts_epoch(self.last_seen@) matches Some(seen)
                    && cron_next_after(self.frequency@, seen) is None),
            },
    {
        let now = crate::schedule::now_epoch();
        crate::schedule::is_due_at(self.frequency.as_str(), self.last_seen.as_str(), now)
    }
}

/// Whether some record in the sequence carries the given feed URL.
pub open spec fn has_link(s: Seq<FeedLinkData>, link: Seq<char>) -> bool {
    exists|i: int| 0 <= i < s.len() && s[i].feed_link@ == link
}

/// The position of the record carrying the given feed URL; meaningful only
/// where one exists, and unique where the links are distinct.
pub open spec fn link_at(s: Seq<FeedLinkData>, link: Seq<char>) -> int {
    choose|i: int| 0 <= i < s.len() && s[i].feed_link@ == link
}

/// The record carrying the given feed URL, if any.
pub open spec fn lookup(s: Seq<FeedLinkData>, link: Seq<char>) -> Option<FeedLinkData> {
    if has_link(s, link) {
        Some(s[link_at(s, link)])
    } else {
        None
    }
}

/// Whether the records carry pairwise distinct feed URLs.
pub open spec fn unique_links(s: Seq<FeedLinkData>) -> bool {
    forall|i: int, j: int|
        #![trigger s[i].feed_link, s[j].feed_link]
        0 <= i < j < s.len() ==> s[i].feed_link@ != s[j].feed_link@
}

/// With distinct links, the record at any position is the one `lookup`
/// finds for its URL.
pub proof fn lemma_lookup_at(s: Seq<FeedLinkData>, i: int)
    requires
        unique_links(s),
        0 <= i < s.len(),
    ensures
        has_link(s, s[i].feed_link@),
        link_at(s, s[i].feed_link@) == i,
        lookup(s, s[i].feed_link@) == Some(s[i]),
{
    assert(has_link(s, s[i].feed_link@));
    let j = link_at(s, s[i].feed_link@);
    assert(0 <= j < s.len() && s[j].feed_link@ == s[i].feed_link@);
    if i < j {
        assert(s[i].feed_link@ != s[j].feed_link@);
    } else if j < i {
        assert(s[j].feed_link@ != s[i].feed_link@);
    }
}

/// The in-memory record store, a mapping from feed URL to record.
pub struct Data {
    link_map: Vec<FeedLinkData>,
}

impl View for Data {
    type V = Seq<FeedLinkData>;

    closed spec fn view(&self) -> Seq<FeedLinkData> {
        self.link_map@
    }
}

impl Default for Data {
    fn default() -> (r: Self)
        ensures
            r@.len() == 0,
            r.wf(),
    {
        Data { link_map: Vec::new() }
    }
}

impl Data {
    /// The store's invariant: every feed URL keys at most one record.
    pub open spec fn wf(&self) -> bool {
        unique_links(self@)
    }

    /// Looks up the record of a feed by its URL.
    pub fn get_link_map(&self, feed: &str) -> (r: Option<FeedLinkData>)
        requires
            self.wf(),
        ensures
            r == lookup(self@, feed@),
    {
        let n = self.link_map.len();
        let mut i: usize = 0;
        while i < n
            invariant
                self.wf(),
                n == self@.len(),
                i <= n,
                forall|k: int| 0 <= k < i ==> #[trigger] self@[k].feed_link@ != feed@,
            decreases n - i,
        {
            if str_eq(self.link_map[i].feed_link.as_str(), feed) {
                proof {
                    lemma_lookup_at(self@, i as int);
                }
                return Some(self.link_map[i].clone());
            }
            i = i + 1;
        }
        proof {
            assert(!has_link(self@, feed@));
        }
        None
    }

    /// Inserts a record for a new feed with an empty last-seen marker, or
    /// updates the schedule of an existing record, leaving its marker
    /// untouched. Returns the resulting record.
    pub fn insert_link_map(&mut self, feed_link: &str, frequency: &str) -> (r: Option<
        FeedLinkData,
    >)
        requires
            old(self).wf(),
        ensures
            final(self).wf(),
            has_link(final(self)@, feed_link@),
            r == lookup(final(self)@, feed_link@),
            if has_link(old(self)@, feed_link@) {
                {
                    let i = link_at(old(self)@, feed_link@);
                    final(self)@.len() == old(self)@.len() && (forall|k: int|
                        0 <= k < old(self)@.len() && k != i ==> final(self)@[k] == old(self)@[k])
                        && final(self)@[i].feed_link == old(self)@[i].feed_link && final(self)@[i].frequency@ == frequency@ && final(self)@[i].last_seen == old(self)@[i].last_seen
                }
            } else {
                final(self)@.len() == old(self)@.len() + 1 && (forall|k: int|
                    0 <= k < old(self)@.len() ==> final(self)@[k] == old(self)@[k]) && final(self)@.last().feed_link@ == feed_link@ && final(self)@.last().frequency@ == frequency@
                    && final(self)@.last().last_seen@.len() == 0
            },
    {
        let n = self.link_map.len();
        let mut i: usize = 0;
        while i < n
            invariant
                self.wf(),
                self@ == old(self)@,
                n == self@.len(),
                i <= n,
                forall|k: int| 0 <= k < i ==> #[trigger] self@[k].feed_link@ != feed_link@,
            decreases n - i,
        {
            if str_eq(self.link_map[i].feed_link.as_str(), feed_link) {
                proof {
                    lemma_lookup_at(self@, i as int);
                }
                let mut rec = self.link_map.remove(i);
                rec.frequency = frequency.to_owned();
                let out = rec.clone();
                self.link_map.insert(i, rec);
                proof {
                    let ghost s = self@;
                    assert(forall|k: int|
                        0 <= k < s.len() && k != i ==> s[k] == old(self)@[k]);
                    assert forall|a: int, b: int|
                        #![trigger s[a].feed_link, s[b].feed_link]
                        0 <= a < b < s.len() implies s[a].feed_link@ != s[b].feed_link@ by {
                        assert(s[a].feed_link@ == old(self)@[a].feed_link@);
                        assert(s[b].feed_link@ == old(self)@[b].feed_link@);
                    }
                    lemma_lookup_at(self@, i as int);
                }
                return Some(out);
            }
            i = i + 1;
        }
        let rec = FeedLinkData {
            feed_link: feed_link.to_owned(),
            frequency: frequency.to_owned(),
            last_seen: String::new(),
        };
        let out = rec.clone();
        self.link_map.push(rec);
        proof {
            let ghost s = self@;
            assert forall|a: int, b: int|
                #![trigger s[a].feed_link, s[b].feed_link]
                0 <= a < b < s.len() implies s[a].feed_link@ != s[b].feed_link@ by {
                if b < s.len() - 1 {
                    assert(s[a].feed_link@ == old(self)@[a].feed_link@);
                    assert(s[b].feed_link@ == old(self)@[b].feed_link@);
                } else {
                    assert(s[a] == old(self)@[a]);
                }
            }
            lemma_lookup_at(self@, self@.len() - 1);
        }
        Some(out)
    }

    /// Advances the last-seen marker of a feed's record to the given
    /// timestamp, if the record exists and the timestamp denotes a strictly
    /// later instant. Returns the resulting record.
    pub fn update_link_map(&mut self, feed: &str, ts: &str) -> (r: Option<FeedLinkData>)
        requires
            old(self).wf(),
        ensures
            final(self).wf(),
            !has_link(old(self)@, feed@) ==> final(self)@ == old(self)@ && r is None,
            has_link(old(self)@, feed@) ==> {
                let i = link_at(old(self)@, feed@);
                final(self)@.len() == old(self)@.len() && (forall|k: int|
                    0 <= k < old(self)@.len() && k != i ==> final(self)@[k] == old(self)@[k])
                    && final(self)@[i].feed_link == old(self)@[i].feed_link && final(self)@[i].frequency == old(self)@[i].frequency && final(self)@[i].last_seen@
                    == advance_spec(old(self)@[i].last_seen@, ts@) && r == Some(final(self)@[i])
            },
    {
        let n = self.link_map.len();
        let mut i: usize = 0;
        while i < n
            invariant
                self.wf(),
                self@ == old(self)@,
                n == self@.len(),
                i <= n,
                forall|k: int| 0 <= k < i ==> #[trigger] self@[k].feed_link@ != feed@,
            decreases n - i,
        {
            if str_eq(self.link_map[i].feed_link.as_str(), feed) {
                proof {
                    lemma_lookup_at(self@, i as int);
                }
                let mut rec = self.link_map.remove(i);
                rec.update_last_seen(ts);
                let out = rec.clone();
                self.link_map.insert(i, rec);
                proof {
                    let ghost s = self@;
                    assert(forall|k: int|
                        0 <= k < s.len() && k != i ==> s[k] == old(self)@[k]);
                    assert forall|a: int, b: int|
                        #![trigger s[a].feed_link, s[b].feed_link]
                        0 <= a < b < s.len() implies s[a].feed_link@ != s[b].feed_link@ by {
                        assert(s[a].feed_link@ == old(self)@[a].feed_link@);
                        assert(s[b].feed_link@ == old(self)@[b].feed_link@);
                    }
                }
                return Some(out);
            }
            i = i + 1;
        }
        proof {
            assert(!has_link(self@, feed@));
        }
        None
    }

    /// Removes the record of a feed, if present.
    pub fn remove_link_map(&mut self, feed: &str)
        requires
            old(self).wf(),
        ensures
            final(self).wf(),
            !has_link(old(self)@, feed@) ==> final(self)@ == old(self)@,
            has_link(old(self)@, feed@) ==> final(self)@ == old(self)@.remove(
                link_at(old(self)@, feed@),
            ),
    {
        let n = self.link_map.len();
        let mut i: usize = 0;
        while i < n
            invariant
                self.wf(),
                self@ == old(self)@,
                n == self@.len(),
                i <= n,
                forall|k: int| 0 <= k < i ==> #[trigger] self@[k].feed_link@ != feed@,
            decreases n - i,
        {
            if str_eq(self.link_map[i].feed_link.as_str(), feed) {
                proof {
                    lemma_lookup_at(self@, i as int);
                }
                self.link_map.remove(i);
                proof {
                    let ghost s = self@;
                    assert forall|a: int, b: int|
                        #![trigger s[a].feed_link, s[b].feed_link]
                        0 <= a < b < s.len() implies s[a].feed_link@ != s[b].feed_link@ by {
                        let oa: int = if a < i { a } else { a + 1 };
                        let ob: int = if b < i { b } else { b + 1 };
                        assert(s[a] == old(self)@[oa]);
                        assert(s[b] == old(self)@[ob]);
                    }
                }
                return ;
            }
            i = i + 1;
        }
        proof {
            assert(!has_link(self@, feed@));
        }
    }

    /// The URLs of all recorded feeds, in store order.
    pub fn get_feeds(&self) -> (r: Vec<String>)
        ensures
            r@.len() == self@.len(),
            forall|i: int| 0 <= i < self@.len() ==> r@[i] == #[trigger] self@[i].feed_link,
    {
        let mut out: Vec<String> = Vec::new();
        let n = self.link_map.len();
        let mut i: usize = 0;
        while i < n
            invariant
                n == self@.len(),
                i <= n,
                out@.len() == i,
                forall|k: int| 0 <= k < i ==> out@[k] == #[trigger] self@[k].feed_link,
            decreases n - i,
        {
            out.push(self.link_map[i].feed_link.clone());
            i = i + 1;
        }
        out
    }

    /// Copies of all records, in store order.
    pub fn get_all_feed_link_data(&self) -> (r: Vec<FeedLinkData>)
        ensures
            r@ == self@,
    {
        let mut out: Vec<FeedLinkData> = Vec::new();
        let n = self.link_map.len();
        let mut i: usize = 0;
        while i < n
            invariant
                n == self@.len(),
                i <= n,
                out@ =~= self@.take(i as int),
            decreases n - i,
        {
            out.push(self.link_map[i].clone());
            i = i + 1;
        }
        proof {
            assert(self@.take(n as int) =~= self@);
        }
        out
    }

    /// Wraps records whose links are already known to be distinct.
    pub(crate) fn from_records(recs: Vec<FeedLinkData>) -> (r: Data)
        requires
            unique_links(recs@),
        ensures
            r@ == recs@,
            r.wf(),
    {
        Data { link_map: recs }
    }

    /// Removes every record.
    pub fn clear(&mut self)
        ensures
            final(self)@.len() == 0,
            final(self).wf(),
    {
        self.link_map.clear();
    }
}

/// Whether some configured feed carries the given URL.
pub open spec fn config_has_link(feeds: Seq<Feed>, link: Seq<char>) -> bool {
    exists|i: int| 0 <= i < feeds.len() && feeds[i].link@ == link
}

/// Whether the sequence holds this very record.
pub open spec fn contains_record(s: Seq<FeedLinkData>, r: FeedLinkData) -> bool {
    exists|k: int| 0 <= k < s.len() && s[k] == r
}

/// Whether any configured feed carries the given URL.
fn feeds_contain(feeds: &Vec<Feed>, link: &str) -> (r: bool)
    ensures
        r == config_has_link(feeds@, link@),
{
    let n = feeds.len();
    let mut i: usize = 0;
    while i < n
        invariant
            n == feeds@.len(),
            i <= n,
            forall|k: int| 0 <= k < i ==> #[trigger] feeds@[k].link@ != link@,
        decreases n - i,
    {
        if str_eq(feeds[i].link.as_str(), link) {
            return true;
        }
        i = i + 1;
    }
    false
}

/// Whether any record in the vector carries the given URL.
pub(crate) fn records_contain(recs: &Vec<FeedLinkData>, link: &str) -> (r: bool)
    ensures
        r == has_link(recs@, link@),
{
    let n = recs.len();
    let mut i: usize = 0;
    while i < n
        invariant
            n == recs@.len(),
            i <= n,
            forall|k: int| 0 <= k < i ==> #[trigger] recs@[k].feed_link@ != link@,
        decreases n - i,
    {
        if str_eq(recs[i].feed_link.as_str(), link) {
            return true;
        }
        i = i + 1;
    }
    false
}

/// Reconciles the record store with the configured feeds: a record is kept,
/// untouched, for every configured feed that already has one; a record with
/// an empty last-seen marker is created for every newly configured feed;
/// records of feeds no longer configured are dropped. The configuration
/// decides which feeds exist; the store keeps the check history.
pub fn initiate_data_from_config(config: &Config, data: &mut Data)
    requires
        old(data).wf(),
    ensures
        final(data).wf(),
        forall|j: int|
            0 <= j < config.feeds@.len() ==> has_link(
                final(data)@,
                (#[trigger] config.feeds@[j]).link@,
            ),
        forall|i: int|
            0 <= i < final(data)@.len() ==> config_has_link(
                config.feeds@,
                (#[trigger] final(data)@[i]).feed_link@,
            ),
        forall|i: int|
            0 <= i < old(data)@.len() && config_has_link(
                config.feeds@,
                (#[trigger] old(data)@[i]).feed_link@,
            ) ==> lookup(final(data)@, old(data)@[i].feed_link@) == Some(old(data)@[i]),
        forall|i: int|
            0 <= i < final(data)@.len() && !has_link(
                old(data)@,
                (#[trigger] final(data)@[i]).feed_link@,
            ) ==> final(data)@[i].last_seen@.len() == 0 && exists|j: int|
                0 <= j < config.feeds@.len() && config.feeds@[j].link@
                    == final(data)@[i].feed_link@ && final(data)@[i].frequency@
                    == config.feeds@[j].schedule@,
{
    let feeds = &config.feeds;
    let mut kept: Vec<FeedLinkData> = Vec::new();

    let n = data.link_map.len();
    let mut i: usize = 0;
    while i < n
        invariant
            data.wf(),
            data@ == old(data)@,
            n == data@.len(),
            i <= n,
            unique_links(kept@),
            forall|k: int|
                #![trigger kept@[k]]
                0 <= k < kept@.len() ==> exists|i2: int| 0 <= i2 < i && kept@[k] == data@[i2],
            forall|k: int|
                0 <= k < kept@.len() ==> config_has_link(
                    feeds@,
                    (#[trigger] kept@[k]).feed_link@,
                ),
            forall|i2: int|
                0 <= i2 < i && config_has_link(feeds@, (#[trigger] data@[i2]).feed_link@)
                    ==> contains_record(kept@, data@[i2]),
        decreases n - i,
    {
        if feeds_contain(feeds, data.link_map[i].feed_link.as_str()) {
            let ghost pre = kept@;
            kept.push(data.link_map[i].clone());
            proof {
                assert(kept@ =~= pre.push(data@[i as int]));
                assert forall|a: int, b: int|
                    #![trigger kept@[a].feed_link, kept@[b].feed_link]
                    0 <= a < b < kept@.len() implies kept@[a].feed_link@
                    != kept@[b].feed_link@ by {
                    if b == kept@.len() - 1 {
                        let i2 = choose|i2: int| 0 <= i2 < i && pre[a] == data@[i2];
                        assert(kept@[a] == data@[i2]);
                        assert(kept@[b] == data@[i as int]);
                    }
                }
                assert forall|i2: int|
                    0 <= i2 < i + 1 && config_has_link(
                        feeds@,
                        (#[trigger] data@[i2]).feed_link@,
                    ) implies contains_record(kept@, data@[i2]) by {
                    if i2 == i as int {
                        assert(kept@[kept@.len() - 1] == data@[i2]);
                    } else {
                        let k = choose|k: int| 0 <= k < pre.len() && pre[k] == data@[i2];
                        assert(kept@[k] == data@[i2]);
                    }
                }
            }
        }
        i = i + 1;
    }

    let ghost filtered = kept@;
    let m = feeds.len();
    let mut j: usize = 0;
    while j < m
        invariant
            data.wf(),
            data@ == old(data)@,
            m == feeds@.len(),
            j <= m,
            unique_links(kept@),
            forall|k: int|
                0 <= k < kept@.len() ==> config_has_link(
                    feeds@,
                    (#[trigger] kept@[k]).feed_link@,
                ),
            forall|i2: int|
                0 <= i2 < data@.len() && config_has_link(
                    feeds@,
                    (#[trigger] data@[i2]).feed_link@,
                ) ==> contains_record(kept@, data@[i2]),
            forall|j2: int|
                0 <= j2 < j ==> has_link(kept@, (#[trigger] feeds@[j2]).link@),
            forall|k: int|
                0 <= k < kept@.len() && !has_link(data@, (#[trigger] kept@[k]).feed_link@)
                    ==> kept@[k].last_seen@.len() == 0 && exists|j2: int|
                    0 <= j2 < feeds@.len() && feeds@[j2].link@ == kept@[k].feed_link@
                        && kept@[k].frequency@ == feeds@[j2].schedule@,
        decreases m - j,
    {
        if !records_contain(&kept, feeds[j].link.as_str()) {
            let ghost pre = kept@;
            let rec = FeedLinkData {
                feed_link: feeds[j].link.clone(),
                frequency: feeds[j].schedule.clone(),
                last_seen: String::new(),
            };
            kept.push(rec);
            proof {
                let last = kept@.len() - 1;
                assert(kept@ =~= pre.push(kept@[last]));
                assert(kept@[last].feed_link@ == feeds@[j as int].link@);
                assert forall|a: int, b: int|
                    #![trigger kept@[a].feed_link, kept@[b].feed_link]
                    0 <= a < b < kept@.len() implies kept@[a].feed_link@
                    != kept@[b].feed_link@ by {
                    if b == last {
                        assert(!has_link(pre, feeds@[j as int].link@));
                        assert(kept@[a] == pre[a]);
                    }
                }
                assert forall|i2: int|
                    0 <= i2 < data@.len() && config_has_link(
                        feeds@,
                        (#[trigger] data@[i2]).feed_link@,
                    ) implies contains_record(kept@, data@[i2]) by {
                    let k = choose|k: int| 0 <= k < pre.len() && pre[k] == data@[i2];
                    assert(kept@[k] == data@[i2]);
                }
                assert forall|j2: int| 0 <= j2 < j + 1 implies has_link(
                    kept@,
                    (#[trigger] feeds@[j2]).link@,
                ) by {
                    if j2 == j as int {
                        assert(kept@[last].feed_link@ == feeds@[j2].link@);
                    } else {
                        let k = choose|k: int| 0 <= k < pre.len() && pre[k].feed_link@
                            == feeds@[j2].link@;
                        assert(kept@[k].feed_link@ == feeds@[j2].link@);
                    }
                }
            }
        } else {
            proof {
                assert forall|j2: int| 0 <= j2 < j + 1 implies has_link(
                    kept@,
                    (#[trigger] feeds@[j2]).link@,
                ) by {
                }
            }
        }
        j = j + 1;
    }

    data.link_map = kept;
    proof {
        assert forall|i2: int|
            0 <= i2 < old(data)@.len() && config_has_link(
                feeds@,
                (#[trigger] old(data)@[i2]).feed_link@,
            ) implies lookup(data@, old(data)@[i2].feed_link@) == Some(old(data)@[i2]) by {
            assert(contains_record(data@, old(data)@[i2]));
            let k = choose|k: int| 0 <= k < data@.len() && data@[k] == old(data)@[i2];
            lemma_lookup_at(data@, k);
        }
    }
}

} // verus!
