//! Unseen-item detection: which items of a fetched feed were published
//! after the feed was last seen.

use vstd::prelude::*;

use crate::timestamp::ts_epoch;

verus! {

/// One item of a fetched feed. Items are ephemeral: they live only for the
/// cycle that fetched them.
pub struct FeedItem {
    pub title: Option<String>,
    pub link: Option<String>,
    pub description: Option<String>,
    pub pub_date: Option<String>,
}

impl Clone for FeedItem {
    fn clone(&self) -> (r: Self)
        ensures
            r == *self,
    {
        FeedItem {
            title: match &self.title {
                Some(t) => Some(t.clone()),
                None => None,
            },
            link: match &self.link {
                Some(l) => Some(l.clone()),
                None => None,
            },
            description: match &self.description {
                Some(d) => Some(d.clone()),
                None => None,
            },
            pub_date: match &self.pub_date {
                Some(d) => Some(d.clone()),
                None => None,
            },
        }
    }
}

/// A comparison of two timestamps could not be made.
#[derive(Debug, Clone, Copy, PartialEq, Eq, Structural)]
pub enum TimestampError {
    /// One of the two strings is not a parsable RFC 2822 timestamp.
    Unparsable,
}

/// Whether an item published at `pub_date` is newer than the last-seen
/// marker; fails exactly when either side does not parse as a timestamp.
pub fn is_item_unseen(pub_date: &str, last_seen: &str) -> (r: Result<bool, TimestampError>)
    ensures
        match r {
            Ok(b) => ts_epoch(pub_date@) is Some && ts_epoch(last_seen@) is Some && b == (ts_epoch(
                pub_date@,
            )->0 > ts_epoch(last_seen@)->0),
            Err(_) => ts_epoch(pub_date@) is None || ts_epoch(last_seen@) is None,
        },
{
    let pd = crate::timestamp::parse_timestamp(pub_date);
    let ls = crate::timestamp::parse_timestamp(last_seen);
    match (pd, ls) {
        (Some(a), Some(b)) => Ok(a > b),
        _ => Err(TimestampError::Unparsable),
    }
}

/// The items of a feed that count as unseen against a last-seen marker.
///
/// Items are assumed to arrive newest first. An undated item, or one whose
/// date does not parse, is skipped and decides nothing. With a non-empty
/// marker that parses, dated items are taken while they are newer than the
/// marker, and the walk stops at the first dated item that is not newer.
/// With an empty marker (a feed never yet checked) every parsable dated
/// item counts as unseen. With a non-empty marker that does not parse, no
/// comparison can be made and no item counts.
pub open spec fn unseen_items_spec(items: Seq<FeedItem>, last_seen: Seq<char>) -> Seq<FeedItem>
    decreases items.len(),
{
    if items.len() == 0 {
        Seq::empty()
    } else {
        let rest = unseen_items_spec(items.drop_first(), last_seen);
        match items[0].pub_date {
            None => rest,
            Some(d) => {
                if last_seen.len() == 0 {
                    if ts_epoch(d@) is Some {
                        seq![items[0]] + rest
                    } else {
                        rest
                    }
                } else {
                    match (ts_epoch(d@), ts_epoch(last_seen)) {
                        (Some(pd), Some(seen)) => {
                            if pd > seen {
                                seq![items[0]] + rest
                            } else {
                                Seq::empty()
                            }
                        },
                        _ => rest,
                    }
                }
            },
        }
    }
}

/// Collects the unseen items of a feed, newest first, against a last-seen
/// marker (empty for a feed never yet checked).
pub fn check_items(items: &[FeedItem], last_seen: &str) -> (r: Vec<FeedItem>)
    ensures
        r@ == unseen_items_spec(items@, last_seen@),
{
    let mut unseen: Vec<FeedItem> = Vec::new();
    let n = items.len();
    let never_seen = last_seen.is_empty();
    let mut i: usize = 0;
    let mut stopped = false;
    proof {
        assert(items@.skip(0) =~= items@);
    }
    while i < n && !stopped
        invariant
            n == items@.len(),
            i <= n,
            never_seen == (last_seen@.len() == 0),
            unseen_items_spec(items@, last_seen@) =~= unseen@ + (if !stopped {
                unseen_items_spec(items@.skip(i as int), last_seen@)
            } else {
                Seq::<FeedItem>::empty()
            }),
        decreases n - i,
    {
        let ghost pre = unseen@;
        proof {
            assert(items@.skip(i as int)[0] == items@[i as int]);
            assert(items@.skip(i as int).drop_first() =~= items@.skip(i as int + 1));
        }
        match &items[i] {
            FeedItem { pub_date: None, .. } => {},
            FeedItem { pub_date: Some(d), .. } => {
                if never_seen {
                    if crate::timestamp::parse_timestamp(d.as_str()).is_some() {
                        unseen.push(items[i].clone());
                        proof {
                            assert(unseen@ =~= pre.push(items@[i as int]));
                            assert(pre + seq![items@[i as int]] + unseen_items_spec(
                                items@.skip(i as int + 1),
                                last_seen@,
                            ) =~= unseen@ + unseen_items_spec(
                                items@.skip(i as int + 1),
                                last_seen@,
                            ));
                        }
                    }
                } else {
                    match is_item_unseen(d.as_str(), last_seen) {
                        Ok(true) => {
                            unseen.push(items[i].clone());
                            proof {
                                assert(unseen@ =~= pre.push(items@[i as int]));
                                assert(pre + seq![items@[i as int]] + unseen_items_spec(
                                    items@.skip(i as int + 1),
                                    last_seen@,
                                ) =~= unseen@ + unseen_items_spec(
                                    items@.skip(i as int + 1),
                                    last_seen@,
                                ));
                            }
                        },
                        Ok(false) => {
                            stopped = true;
                        },
                        Err(_) => {},
                    }
                }
            },
        }
        i = i + 1;
    }
    proof {
        if !stopped {
            assert(items@.skip(i as int) =~= Seq::<FeedItem>::empty());
        }
        assert(unseen@ =~= unseen_items_spec(items@, last_seen@));
    }
    unseen
}

/// Every unseen item is dated with a parsable timestamp; with a non-empty
/// parsable marker, each one is strictly newer than the marker.
pub proof fn lemma_unseen_items_dated(items: Seq<FeedItem>, last_seen: Seq<char>)
    ensures
        forall|k: int|
            0 <= k < unseen_items_spec(items, last_seen).len() ==> {
                let it = #[trigger] unseen_items_spec(items, last_seen)[k];
                it.pub_date is Some && ts_epoch(it.pub_date->0@) is Some && (last_seen.len() > 0
                    && ts_epoch(last_seen) is Some ==> ts_epoch(it.pub_date->0@)->0 > ts_epoch(
                    last_seen,
                )->0)
            },
    decreases items.len(),
{
    if items.len() > 0 {
        lemma_unseen_items_dated(items.drop_first(), last_seen);
    }
}

/// With every item dated by a parsable timestamp and a non-empty parsable
/// last-seen marker, the unseen items are a prefix of the feed, and the
/// first item past that prefix, if any, is not newer than the marker.
pub proof fn lemma_unseen_is_prefix(items: Seq<FeedItem>, last_seen: Seq<char>)
    requires
        last_seen.len() > 0,
        ts_epoch(last_seen) is Some,
        forall|k: int|
            0 <= k < items.len() ==> #[trigger] items[k].pub_date is Some && ts_epoch(
                items[k].pub_date->0@,
            ) is Some,
    ensures
        unseen_items_spec(items, last_seen).len() <= items.len(),
        unseen_items_spec(items, last_seen) =~= items.take(
            unseen_items_spec(items, last_seen).len() as int,
        ),
        unseen_items_spec(items, last_seen).len() < items.len() ==> ts_epoch(
            items[unseen_items_spec(items, last_seen).len() as int].pub_date->0@,
        )->0 <= ts_epoch(last_seen)->0,
    decreases items.len(),
{
    let u = unseen_items_spec(items, last_seen);
    if items.len() > 0 {
        let rest = items.drop_first();
        assert forall|k: int|
            0 <= k < rest.len() implies #[trigger] rest[k].pub_date is Some && ts_epoch(
            rest[k].pub_date->0@,
        ) is Some by {
            assert(rest[k] == items[k + 1]);
        }
        lemma_unseen_is_prefix(rest, last_seen);
        let ur = unseen_items_spec(rest, last_seen);
        let d = items[0].pub_date->0;
        assert(items[0].pub_date is Some && ts_epoch(d@) is Some);
        if ts_epoch(d@)->0 > ts_epoch(last_seen)->0 {
            assert(u =~= seq![items[0]] + ur);
            assert(ur =~= rest.take(ur.len() as int));
            assert(u =~= items.take(u.len() as int)) by {
                assert forall|k: int| 0 <= k < u.len() implies u[k] == items.take(
                    u.len() as int,
                )[k] by {
                    if k > 0 {
                        assert(u[k] == ur[k - 1]);
                        assert(ur[k - 1] == rest.take(ur.len() as int)[k - 1]);
                        assert(rest[k - 1] == items[k]);
                    }
                }
            }
            if u.len() < items.len() {
                assert(items[u.len() as int] == rest[ur.len() as int]);
            }
        } else {
            assert(u =~= Seq::<FeedItem>::empty());
            assert(u =~= items.take(0));
        }
    } else {
        assert(u =~= items.take(0));
    }
}

} // verus!
