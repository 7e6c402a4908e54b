//! Configured feeds: the desired set of subscriptions, each a feed URL with
//! a cron-style check schedule.

use vstd::prelude::*;
use vstd::string::StringExecFns;

use crate::text::{dec_str, u64_to_string};

verus! {

/// One configured subscription: a feed URL and its check schedule.
pub struct Feed {
    pub link: String,
    pub schedule: String,
}

impl Clone for Feed {
    fn clone(&self) -> (r: Self)
        ensures
            r == *self,
    {
        Feed { link: self.link.clone(), schedule: self.schedule.clone() }
    }
}

/// The set of configured subscriptions, in configuration order.
pub struct Config {
    pub feeds: Vec<Feed>,
}

impl Default for Config {
    fn default() -> (r: Self)
        ensures
            r.feeds@.len() == 0,
    {
        Config { feeds: Vec::new() }
    }
}

/// The listing line for the feed at a position: the position, the link and
/// the schedule, ended by a line break.
pub open spec fn feed_line(i: nat, f: Feed) -> Seq<char> {
    dec_str(i) + ": "@ + f.link@ + " - "@ + f.schedule@ + "\n"@
}

/// The listing of a feed sequence: one line per feed, in order.
pub open spec fn list_feeds_spec(feeds: Seq<Feed>) -> Seq<char>
    decreases feeds.len(),
{
    if feeds.len() == 0 {
        Seq::empty()
    } else {
        list_feeds_spec(feeds.drop_last()) + feed_line((feeds.len() - 1) as nat, feeds.last())
    }
}

impl Config {
    /// Appends a subscription for the given URL under the given schedule.
    pub fn add_feed(&mut self, url: &str, schedule: &str)
        ensures
            final(self).feeds@.len() == old(self).feeds@.len() + 1,
            forall|i: int|
                0 <= i < old(self).feeds@.len() ==> final(self).feeds@[i] == old(self).feeds@[i],
            final(self).feeds@.last().link@ == url@,
            final(self).feeds@.last().schedule@ == schedule@,
    {
        let new_feed = Feed { link: url.to_owned(), schedule: schedule.to_owned() };
        self.feeds.push(new_feed);
    }

    /// Removes the subscription at the given position; rejects a position
    /// past the end.
    pub fn remove_feed(&mut self, index: usize) -> (r: Result<(), &'static str>)
        ensures
            match r {
                Ok(()) => index < old(self).feeds@.len() && final(self).feeds@ == old(
                    self,
                ).feeds@.remove(index as int),
                Err(m) => index >= old(self).feeds@.len() && final(self).feeds@ == old(
                    self,
                ).feeds@ && m@ == "Feed index is out of bounds."@,
            },
    {
        if index >= self.feeds.len() {
            Err("Feed index is out of bounds.")
        } else {
            self.feeds.remove(index);
            Ok(())
        }
    }

    /// Renders the subscriptions as one listing line per feed.
    pub fn list_feeds(&self) -> (r: String)
        ensures
            r@ == list_feeds_spec(self.feeds@),
    {
        let mut output = String::new();
        let n = self.feeds.len();
        let mut i: usize = 0;
        proof {
            assert(self.feeds@.take(0) =~= Seq::<Feed>::empty());
        }
        while i < n
            invariant
                n == self.feeds@.len(),
                i <= n,
                output@ == list_feeds_spec(self.feeds@.take(i as int)),
            decreases n - i,
        {
            let ghost pre = output@;
            let num = u64_to_string(i as u64);
            output.append(num.as_str());
            output.append(": ");
            output.append(self.feeds[i].link.as_str());
            output.append(" - ");
            output.append(self.feeds[i].schedule.as_str());
            output.append("\n");
            proof {
                let taken = self.feeds@.take(i as int + 1);
                assert(taken.drop_last() =~= self.feeds@.take(i as int));
                assert(taken.last() == self.feeds@[i as int]);
                assert(output@ =~= pre + feed_line(i as nat, self.feeds@[i as int]));
            }
            i = i + 1;
        }
        proof {
            assert(self.feeds@.take(n as int) =~= self.feeds@);
        }
        output
    }

    /// Removes every subscription.
    pub fn clear(&mut self)
        ensures
            final(self).feeds@.len() == 0,
    {
        self.feeds.clear();
    }
}

} // verus!
