//! The check cycle: given each fetched feed's outcome, detect unseen items,
//! advance last-seen markers, and collect notification requests. Fetching
//! itself and showing notifications are left to the caller; a failure of
//! one feed never disturbs the others.

use vstd::prelude::*;

use crate::data::{
    advance_spec, has_link, link_at, lookup, Data, FeedLinkData,
};
use crate::detect::{check_items, lemma_unseen_items_dated, unseen_items_spec, FeedItem};
use crate::notify::NotificationData;

verus! {

/// A fetched feed document: its title and its items, newest first.
pub struct FeedDocument {
    pub title: String,
    pub items: Vec<FeedItem>,
}

/// How fetching one feed went.
pub enum FetchResult {
    /// The feed was fetched and parsed.
    Fetched(FeedDocument),
    /// The feed could not be fetched; the reason is carried along.
    FetchFailed(String),
    /// The fetched bytes could not be parsed as a feed.
    ParseFailed(String),
}

/// The outcome recorded for one feed of a cycle.
pub enum CheckOutcome {
    /// Unseen items were found; their number is carried along.
    Updated(u64),
    /// The feed was checked and nothing new was found.
    NoChange,
    /// The feed could not be fetched.
    FetchFailed(String),
    /// The fetched bytes could not be parsed as a feed.
    ParseFailed(String),
}

/// The unseen items a fetch result yields against a record's marker.
pub open spec fn unseen_of(rec: FeedLinkData, f: FetchResult) -> Seq<FeedItem> {
    match f {
        FetchResult::Fetched(doc) => unseen_items_spec(doc.items@, rec.last_seen@),
        _ => Seq::empty(),
    }
}

/// The outcome a fetch result yields against a record.
pub open spec fn outcome_spec(rec: FeedLinkData, f: FetchResult) -> CheckOutcome {
    match f {
        FetchResult::FetchFailed(m) => CheckOutcome::FetchFailed(m),
        FetchResult::ParseFailed(m) => CheckOutcome::ParseFailed(m),
        FetchResult::Fetched(doc) => {
            let unseen = unseen_items_spec(doc.items@, rec.last_seen@);
            if unseen.len() == 0 {
                CheckOutcome::NoChange
            } else {
                CheckOutcome::Updated(unseen.len() as u64)
            }
        },
    }
}

/// The record's last-seen marker after the cycle: advanced to the newest
/// unseen item's publish timestamp where there is one, unchanged otherwise.
pub open spec fn new_marker_spec(rec: FeedLinkData, f: FetchResult) -> Seq<char> {
    let unseen = unseen_of(rec, f);
    if unseen.len() > 0 {
        advance_spec(rec.last_seen@, (unseen[0].pub_date->0)@)
    } else {
        rec.last_seen@
    }
}

/// The notification a fetch result yields: one per feed with unseen items,
/// except on a feed's very first check, which only seeds the marker.
pub open spec fn notification_spec(rec: FeedLinkData, f: FetchResult) -> Option<NotificationData> {
    match f {
        FetchResult::Fetched(doc) => {
            let unseen = unseen_items_spec(doc.items@, rec.last_seen@);
            if unseen.len() > 0 && rec.last_seen@.len() > 0 {
                Some(
                    NotificationData {
                        title: doc.title,
                        unseen_items_count: unseen.len() as u64,
                        latest_item: unseen[0],
                    },
                )
            } else {
                None
            }
        },
        _ => None,
    }
}

/// The notifications of a whole cycle, in fetch order.
pub open spec fn notifications_spec(
    data: Seq<FeedLinkData>,
    fetches: Seq<(String, FetchResult)>,
) -> Seq<NotificationData>
    decreases fetches.len(),
{
    if fetches.len() == 0 {
        Seq::empty()
    } else {
        let head = match notification_spec(lookup(data, fetches[0].0@)->0, fetches[0].1) {
            Some(nd) => seq![nd],
            None => Seq::<NotificationData>::empty(),
        };
        head + notifications_spec(data, fetches.drop_first())
    }
}

/// Whether some fetch entry names the given feed URL.
pub open spec fn fetched_link(fetches: Seq<(String, FetchResult)>, link: Seq<char>) -> bool {
    exists|k: int| 0 <= k < fetches.len() && fetches[k].0@ == link
}

/// Whether the fetch entries name pairwise distinct feed URLs.
pub open spec fn distinct_fetch_links(fetches: Seq<(String, FetchResult)>) -> bool {
    forall|a: int, b: int|
        #![trigger fetches[a].0, fetches[b].0]
        0 <= a < b < fetches.len() ==> fetches[a].0@ != fetches[b].0@
}

/// Whether every fetch entry names a recorded feed.
pub open spec fn fetch_links_known(
    data: Seq<FeedLinkData>,
    fetches: Seq<(String, FetchResult)>,
) -> bool {
    forall|k: int| 0 <= k < fetches.len() ==> has_link(data, (#[trigger] fetches[k]).0@)
}

/// Extending a cycle by one fetch appends that fetch's notification, if
/// any, to the cycle's notifications.
proof fn lemma_notifications_snoc(
    data: Seq<FeedLinkData>,
    fetches: Seq<(String, FetchResult)>,
    k: int,
)
    requires
        0 <= k < fetches.len(),
    ensures
        notifications_spec(data, fetches.take(k + 1)) == notifications_spec(data, fetches.take(k))
            + (match notification_spec(lookup(data, fetches[k].0@)->0, fetches[k].1) {
            Some(nd) => seq![nd],
            None => Seq::<NotificationData>::empty(),
        }),
    decreases k,
{
    let pre = fetches.take(k);
    let cur = fetches.take(k + 1);
    if k == 0 {
        assert(pre =~= Seq::<(String, FetchResult)>::empty());
        assert(cur.drop_first() =~= Seq::<(String, FetchResult)>::empty());
        assert(cur[0] == fetches[0]);
        assert(notifications_spec(data, cur) =~= notifications_spec(data, pre) + (
        match notification_spec(lookup(data, fetches[k].0@)->0, fetches[k].1) {
            Some(nd) => seq![nd],
            None => Seq::<NotificationData>::empty(),
        }));
    } else {
        lemma_notifications_snoc(data, fetches.drop_first(), k - 1);
        assert(pre.drop_first() =~= fetches.drop_first().take(k - 1));
        assert(cur.drop_first() =~= fetches.drop_first().take(k));
        assert(pre[0] == fetches[0]);
        assert(cur[0] == fetches[0]);
        assert(fetches.drop_first()[k - 1] == fetches[k]);
    }
}

/// Runs one check cycle over the given fetch results, one per recorded
/// feed. For each fetched feed the unseen items are detected against its
/// record's marker and the marker advances to the newest unseen item's
/// timestamp; a feed checked for the first time only seeds its marker. The
/// cycle returns one outcome per fetch, in order, and the notification
/// requests of all feeds with unseen items. Feeds without a fetch entry,
/// and every record's identity and schedule, are left untouched.
pub fn run_cycle(data: &mut Data, fetches: &Vec<(String, FetchResult)>) -> (r: (
    Vec<(String, CheckOutcome)>,
    Vec<NotificationData>,
))
    requires
        old(data).wf(),
        distinct_fetch_links(fetches@),
        fetch_links_known(old(data)@, fetches@),
    ensures
        final(data).wf(),
        final(data)@.len() == old(data)@.len(),
        forall|i: int|
            0 <= i < old(data)@.len() ==> (#[trigger] final(data)@[i]).feed_link == old(
                data,
            )@[i].feed_link && final(data)@[i].frequency == old(data)@[i].frequency,
        forall|i: int|
            0 <= i < old(data)@.len() && !fetched_link(
                fetches@,
                (#[trigger] old(data)@[i]).feed_link@,
            ) ==> final(data)@[i] == old(data)@[i],
        forall|k: int|
            0 <= k < fetches@.len() ==> {
                let l = (#[trigger] fetches@[k]).0@;
                let i = link_at(old(data)@, l);
                final(data)@[i].last_seen@ == new_marker_spec(old(data)@[i], fetches@[k].1)
            },
        r.0@.len() == fetches@.len(),
        forall|k: int|
            0 <= k < fetches@.len() ==> (#[trigger] r.0@[k]).0 == fetches@[k].0 && r.0@[k].1
                == outcome_spec(old(data)@[link_at(old(data)@, fetches@[k].0@)], fetches@[k].1),
        r.1@ == notifications_spec(old(data)@, fetches@),
{
    let mut outcomes: Vec<(String, CheckOutcome)> = Vec::new();
    let mut notifs: Vec<NotificationData> = Vec::new();
    let m = fetches.len();
    let mut k: usize = 0;
    proof {
        assert(notifs@ =~= notifications_spec(old(data)@, fetches@.take(0)));
    }
    while k < m
        invariant
            data.wf(),
            old(data).wf(),
            m == fetches@.len(),
            k <= m,
            distinct_fetch_links(fetches@),
            fetch_links_known(old(data)@, fetches@),
            data@.len() == old(data)@.len(),
            forall|i: int|
                0 <= i < old(data)@.len() ==> (#[trigger] data@[i]).feed_link == old(
                    data,
                )@[i].feed_link && data@[i].frequency == old(data)@[i].frequency,
            forall|i: int|
                0 <= i < old(data)@.len() && !fetched_link(
                    fetches@.take(k as int),
                    (#[trigger] old(data)@[i]).feed_link@,
                ) ==> data@[i] == old(data)@[i],
            forall|k2: int|
                0 <= k2 < k ==> {
                    let l = (#[trigger] fetches@[k2]).0@;
                    let i = link_at(old(data)@, l);
                    data@[i].last_seen@ == new_marker_spec(old(data)@[i], fetches@[k2].1)
                },
            outcomes@.len() == k,
            forall|k2: int|
                0 <= k2 < k ==> (#[trigger] outcomes@[k2]).0 == fetches@[k2].0 && outcomes@[k2].1
                    == outcome_spec(
                    old(data)@[link_at(old(data)@, fetches@[k2].0@)],
                    fetches@[k2].1,
                ),
            notifs@ == notifications_spec(old(data)@, fetches@.take(k as int)),
        decreases m - k,
    {
        let ghost old_view = old(data)@;
        let link: &String = &fetches[k].0;
        let ghost l = link@;
        let ghost ik = link_at(old_view, l);
        proof {
            assert(has_link(old_view, l));
            crate::data::lemma_lookup_at(old_view, ik);
            assert(0 <= ik < old_view.len() && old_view[ik].feed_link@ == l);
            // this feed was not processed yet, so its record is untouched
            assert(!fetched_link(fetches@.take(k as int), old_view[ik].feed_link@)) by {
                if fetched_link(fetches@.take(k as int), l) {
                    let k2 = choose|k2: int|
                        0 <= k2 < k && fetches@.take(k as int)[k2].0@ == l;
                    assert(fetches@[k2].0@ == fetches@[k as int].0@);
                }
            }
            assert(data@[ik] == old_view[ik]);
            lemma_notifications_snoc(old_view, fetches@, k as int);
        }
        match &fetches[k].1 {
            FetchResult::FetchFailed(msg) => {
                outcomes.push((link.clone(), CheckOutcome::FetchFailed(msg.clone())));
                proof {
                    assert(fetches@.take(k as int + 1) =~= fetches@.take(k as int).push(
                        fetches@[k as int],
                    ));
                    assert(notifs@ =~= notifications_spec(
                        old_view,
                        fetches@.take(k as int + 1),
                    ));
                }
            },
            FetchResult::ParseFailed(msg) => {
                outcomes.push((link.clone(), CheckOutcome::ParseFailed(msg.clone())));
                proof {
                    assert(notifs@ =~= notifications_spec(
                        old_view,
                        fetches@.take(k as int + 1),
                    ));
                }
            },
            FetchResult::Fetched(doc) => {
                let rec = match data.get_link_map(link.as_str()) {
                    Some(r) => r,
                    None => {
                        // never reached: every fetch entry names a recorded feed
                        proof {
                            crate::data::lemma_lookup_at(data@, ik);
                        }
                        FeedLinkData::new(String::new(), String::new(), String::new())
                    },
                };
                proof {
                    crate::data::lemma_lookup_at(data@, ik);
                    assert(rec == data@[ik]);
                }
                let unseen = check_items(doc.items.as_slice(), rec.last_seen.as_str());
                if unseen.len() == 0 {
                    outcomes.push((link.clone(), CheckOutcome::NoChange));
                    proof {
                        assert(notifs@ =~= notifications_spec(
                            old_view,
                            fetches@.take(k as int + 1),
                        ));
                    }
                } else {
                    let count = unseen.len() as u64;
                    proof {
                        assert(unseen@.len() <= usize::MAX);
                        lemma_unseen_items_dated(doc.items@, rec.last_seen@);
                        assert(unseen@[0].pub_date is Some);
                    }
                    let newest = unseen[0].clone();
                    let first_check = rec.last_seen.as_str().is_empty();
                    let ghost pre_update = data@;
                    match &newest.pub_date {
                        Some(d) => {
                            data.update_link_map(link.as_str(), d.as_str());
                        },
                        None => {},
                    }
                    proof {
                        crate::data::lemma_lookup_at(pre_update, ik);
                        // the update touched only this feed's record
                        assert(data@[ik].last_seen@ == new_marker_spec(
                            old_view[ik],
                            fetches@[k as int].1,
                        ));
                        assert forall|i: int|
                            0 <= i < old_view.len() && !fetched_link(
                                fetches@.take(k as int + 1),
                                (#[trigger] old_view[i]).feed_link@,
                            ) implies data@[i] == old_view[i] by {
                            assert(!fetched_link(
                                fetches@.take(k as int),
                                old_view[i].feed_link@,
                            )) by {
                                if fetched_link(fetches@.take(k as int), old_view[i].feed_link@) {
                                    let k2 = choose|k2: int|
                                        0 <= k2 < k && fetches@.take(k as int)[k2].0@
                                            == old_view[i].feed_link@;
                                    assert(fetches@.take(k as int + 1)[k2].0@
                                        == old_view[i].feed_link@);
                                }
                            }
                            assert(i != ik) by {
                                assert(fetches@.take(k as int + 1)[k as int].0@ == l);
                            }
                        }
                        assert forall|k2: int| 0 <= k2 < k + 1 implies {
                            let l2 = (#[trigger] fetches@[k2]).0@;
                            let i2 = link_at(old_view, l2);
                            data@[i2].last_seen@ == new_marker_spec(old_view[i2], fetches@[k2].1)
                        } by {
                            let l2 = fetches@[k2].0@;
                            assert(has_link(old_view, l2));
                            let i2 = link_at(old_view, l2);
                            crate::data::lemma_lookup_at(old_view, i2);
                            if k2 < k {
                                assert(i2 != ik) by {
                                    if i2 == ik {
                                        assert(fetches@[k2].0@ == fetches@[k as int].0@);
                                    }
                                }
                                assert(data@[i2] == pre_update[i2]);
                            }
                        }
                    }
                    if !first_check {
                        notifs.push(
                            NotificationData {
                                title: doc.title.clone(),
                                unseen_items_count: count,
                                latest_item: newest,
                            },
                        );
                        proof {
                            assert(notifs@ =~= notifications_spec(
                                old_view,
                                fetches@.take(k as int + 1),
                            ));
                        }
                    } else {
                        proof {
                            assert(notifs@ =~= notifications_spec(
                                old_view,
                                fetches@.take(k as int + 1),
                            ));
                        }
                    }
                    outcomes.push((link.clone(), CheckOutcome::Updated(count)));
                }
            },
        }
        k = k + 1;
    }
    proof {
        assert(fetches@.take(m as int) =~= fetches@);
        assert(notifs@ == notifications_spec(old(data)@, fetches@));
    }
    (outcomes, notifs)
}

} // verus!
