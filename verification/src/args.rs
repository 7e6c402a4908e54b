//! The command surface: parsing the command word and the verified parts of
//! the add and remove commands.

use vstd::prelude::*;
use vstd::string::StringExecFns;

use crate::data::{has_link, link_at, lookup, Data};
use crate::text::str_eq;

verus! {

/// The closed set of commands.
#[derive(Debug, Clone, Copy, PartialEq, Eq, Structural)]
pub enum ArgumentOptions {
    Check,
    Add,
    Remove,
    List,
    Help,
}

/// A parsed command line: the command the user asked for.
#[derive(Debug)]
pub struct Argument {
    pub specified_option: ArgumentOptions,
}

/// The command denoted by a command word, if any.
pub open spec fn command_of(word: Seq<char>) -> Option<ArgumentOptions> {
    if word == "check"@ {
        Some(ArgumentOptions::Check)
    } else if word == "add"@ {
        Some(ArgumentOptions::Add)
    } else if word == "remove"@ {
        Some(ArgumentOptions::Remove)
    } else if word == "list"@ {
        Some(ArgumentOptions::List)
    } else if word == "help"@ {
        Some(ArgumentOptions::Help)
    } else {
        None
    }
}

impl Argument {
    /// Parses the command line: the word after the program name must be one
    /// of the known commands.
    pub fn new(args: &[String]) -> (r: Result<Argument, String>)
        ensures
            match r {
                Ok(a) => args@.len() >= 2 && command_of(args@[1]@) == Some(a.specified_option),
                Err(m) => (args@.len() < 2 && m@ == "No command provided"@) || (args@.len() >= 2
                    && command_of(args@[1]@) is None && m@ == "Invalid command: "@ + args@[1]@),
            },
    {
        if args.len() < 2 {
            return Err(String::from_str("No command provided"));
        }
        let arg = args[1].as_str();
        let option = if str_eq(arg, "check") {
            ArgumentOptions::Check
        } else if str_eq(arg, "add") {
            ArgumentOptions::Add
        } else if str_eq(arg, "remove") {
            ArgumentOptions::Remove
        } else if str_eq(arg, "list") {
            ArgumentOptions::List
        } else if str_eq(arg, "help") {
            ArgumentOptions::Help
        } else {
            return Err(String::from_str("Invalid command: ").concat(arg));
        };
        Ok(Argument { specified_option: option })
    }
}

/// The add command's verified part: takes the link and schedule arguments
/// and records the feed; the caller persists the store afterwards.
pub fn run_add(args: &[String], data: &mut Data) -> (r: Result<(), String>)
    requires
        old(data).wf(),
    ensures
        final(data).wf(),
        match r {
            Ok(()) => args@.len() >= 4 && has_link(final(data)@, args@[2]@) && (lookup(
                final(data)@,
                args@[2]@,
            ) matches Some(rec) && rec.frequency@ == args@[3]@ && (match lookup(
                old(data)@,
                args@[2]@,
            ) {
                Some(prev) => rec.last_seen == prev.last_seen && final(data)@.len() == old(
                    data,
                )@.len(),
                None => rec.last_seen@.len() == 0 && final(data)@.len() == old(data)@.len() + 1,
            })),
            Err(m) => final(data)@ == old(data)@ && ((args@.len() < 3 && m@
                == "No link provided"@) || (args@.len() == 3 && m@ == "No frequency provided"@)),
        },
{
    if args.len() < 3 {
        return Err(String::from_str("No link provided"));
    }
    if args.len() < 4 {
        return Err(String::from_str("No frequency provided"));
    }
    let link = &args[2];
    let frequency = &args[3];
    data.insert_link_map(link.as_str(), frequency.as_str());
    proof {
        if has_link(old(data)@, args@[2]@) {
            let i = link_at(old(data)@, args@[2]@);
            crate::data::lemma_lookup_at(old(data)@, i);
            assert(data@[i].feed_link@ == args@[2]@);
            crate::data::lemma_lookup_at(data@, i);
        } else {
            crate::data::lemma_lookup_at(data@, data@.len() - 1);
        }
    }
    Ok(())
}

/// The remove command's verified part: takes the link argument and drops
/// the feed's record; the caller persists the store afterwards.
pub fn run_remove(args: &[String], data: &mut Data) -> (r: Result<(), String>)
    requires
        old(data).wf(),
    ensures
        final(data).wf(),
        match r {
            Ok(()) => args@.len() >= 3 && !has_link(final(data)@, args@[2]@) && (if has_link(
                old(data)@,
                args@[2]@,
            ) {
                final(data)@ == old(data)@.remove(link_at(old(data)@, args@[2]@))
            } else {
                final(data)@ == old(data)@
            }),
            Err(m) => final(data)@ == old(data)@ && args@.len() < 3 && m@
                == "No link provided"@,
        },
{
    if args.len() < 3 {
        return Err(String::from_str("No link provided"));
    }
    let link = &args[2];
    data.remove_link_map(link.as_str());
    proof {
        if has_link(data@, args@[2]@) {
            let i = link_at(data@, args@[2]@);
            crate::data::lemma_lookup_at(data@, i);
            if has_link(old(data)@, args@[2]@) {
                let j = link_at(old(data)@, args@[2]@);
                let oi: int = if i < j {
                    i
                } else {
                    i + 1
                };
                assert(data@[i] == old(data)@.remove(j)[i]);
                assert(old(data)@.remove(j)[i] == old(data)@[oi]);
                crate::data::lemma_lookup_at(old(data)@, oi);
            }
        }
    }
    Ok(())
}

} // verus!
