//! Notification content: the subject and body shown for a feed with unseen
//! items. Handing the content to a desktop notification backend is left to
//! the caller.

use vstd::prelude::*;
use vstd::string::StringExecFns;

use crate::detect::FeedItem;
use crate::text::{chars_to_string, dec_str, string_to_chars, u64_to_string};

verus! {

/// A notification request for one feed: the feed's title, how many unseen
/// items it has, and its newest unseen item.
pub struct NotificationData {
    pub title: String,
    pub unseen_items_count: u64,
    pub latest_item: FeedItem,
}

/// The notification subject for a feed title and an unseen-item count.
pub open spec fn subject_spec(title: Seq<char>, count: u64) -> Seq<char> {
    title + ", "@ + dec_str(count as nat) + " unread items!"@
}

/// A description rendered for a notification body: cut off past a fixed
/// length, with an ellipsis marker where something was cut.
pub open spec fn truncated_spec(s: Seq<char>) -> Seq<char> {
    if s.len() <= 120 {
        s
    } else {
        s.take(120) + "..."@
    }
}

/// The notification body for the newest unseen item: its title, or a
/// placeholder where it has none, its truncated description where it has
/// one, and a call to action.
pub open spec fn body_spec(item: FeedItem) -> Seq<char> {
    "Latest Item: <i>"@ + (match item.title {
        Some(t) => t@,
        None => "Untitled"@,
    }) + "</i>"@ + (match item.description {
        Some(d) => "\n"@ + truncated_spec(d@),
        None => Seq::<char>::empty(),
    }) + "\nClick to read more!"@
}

/// Cuts a description off past the fixed length, marking the cut.
fn truncated(s: &str) -> (r: String)
    ensures
        r@ == truncated_spec(s@),
{
    let cs = string_to_chars(s);
    if cs.len() <= 120 {
        proof {
            assert(cs@.take(cs@.len() as int) =~= cs@);
        }
        chars_to_string(&cs)
    } else {
        let mut cut: Vec<char> = Vec::new();
        let mut i: usize = 0;
        proof {
            assert(cs@.take(0) =~= Seq::<char>::empty());
        }
        while i < 120
            invariant
                cs@.len() > 120,
                i <= 120,
                cut@ == cs@.take(i as int),
            decreases 120 - i,
        {
            cut.push(cs[i]);
            proof {
                assert(cut@ =~= cs@.take(i as int + 1));
            }
            i = i + 1;
        }
        let mut out = chars_to_string(&cut);
        out.append("...");
        out
    }
}

impl NotificationData {
    /// Renders the notification subject.
    pub fn create_subject(&self) -> (r: String)
        ensures
            r@ == subject_spec(self.title@, self.unseen_items_count),
    {
        let mut s = self.title.clone();
        s.append(", ");
        let num = u64_to_string(self.unseen_items_count);
        s.append(num.as_str());
        s.append(" unread items!");
        s
    }

    /// Renders the notification body from the newest unseen item.
    pub fn create_body(&self) -> (r: String)
        ensures
            r@ == body_spec(self.latest_item),
    {
        let mut s = String::from_str("Latest Item: <i>");
        match &self.latest_item.title {
            Some(t) => s.append(t.as_str()),
            None => s.append("Untitled"),
        }
        s.append("</i>");
        match &self.latest_item.description {
            Some(d) => {
                s.append("\n");
                let cut = truncated(d.as_str());
                s.append(cut.as_str());
            },
            None => {},
        }
        s.append("\nClick to read more!");
        s
    }

    /// The link of the newest unseen item, empty where it has none.
    pub fn action_link(&self) -> (r: &str)
        ensures
            match self.latest_item.link {
                Some(l) => r@ == l@,
                None => r@ == ""@,
            },
    {
        match &self.latest_item.link {
            Some(l) => l.as_str(),
            None => "",
        }
    }
}

} // verus!
