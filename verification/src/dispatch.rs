//! Which script handler a delivered message goes to. A node script may
//! define `on_msg` or `on_message`, taking the message alone or the sender
//! and the message; they are tried in that order until one exists.
use vstd::prelude::*;
use crate::text::{chars_of, has_prefix, starts_with};

verus! {

/// The handlers tried for a delivered message, in order: (name, whether it
/// also takes the sender).
pub open spec fn handler_at(attempt: nat) -> (Seq<char>, bool) {
    if attempt == 0 {
        ("on_msg"@, false)
    } else if attempt == 1 {
        ("on_message"@, false)
    } else if attempt == 2 {
        ("on_msg"@, true)
    } else {
        ("on_message"@, true)
    }
}

/// How many handler forms there are.
pub const HANDLER_FORMS: usize = 4;

/// The name of the `attempt`-th handler form and whether it takes the
/// sender as well as the message.
pub fn message_handler(attempt: usize) -> (r: (&'static str, bool))
    requires
        attempt < HANDLER_FORMS,
    ensures
        (r.0@, r.1) == handler_at(attempt as nat),
{
    if attempt == 0 {
        ("on_msg", false)
    } else if attempt == 1 {
        ("on_message", false)
    } else if attempt == 2 {
        ("on_msg", true)
    } else {
        ("on_message", true)
    }
}

/// How a handler call ended.
#[derive(Debug)]
pub enum HandlerOutcome {
    /// The handler ran.
    Done,
    /// The script has no function by this name (the name the engine
    /// reports).
    NotFound(String),
    /// The handler failed some other way.
    Failed,
}

/// The handler form to try after `attempt` ended with `outcome`. Only a
/// missing handler moves on: after the first form, a missing `on_msg…`
/// function leads to the second form and a missing `on_message…` one
/// straight to the third; after the second or third form, either leads to
/// the next form. Anything else ends the dispatch.
pub open spec fn next_attempt(attempt: nat, outcome: HandlerOutcome) -> Option<nat> {
    match outcome {
        HandlerOutcome::NotFound(f) => {
            let msg = starts_with(f@, "on_msg"@);
            let message = starts_with(f@, "on_message"@);
            if attempt == 0 && msg {
                Some(1)
            } else if attempt == 0 && message {
                Some(2)
            } else if 1 <= attempt <= 2 && (msg || message) {
                Some(attempt + 1)
            } else {
                None
            }
        },
        _ => None,
    }
}

/// Decides whether to try another handler form after a call (see
/// `next_attempt`).
pub fn next_message_handler(attempt: usize, outcome: &HandlerOutcome) -> (r: Option<usize>)
    requires
        attempt < HANDLER_FORMS,
    ensures
        match r {
            Some(a) => next_attempt(attempt as nat, *outcome) == Some(a as nat),
            None => next_attempt(attempt as nat, *outcome) is None,
        },
{
    match outcome {
        HandlerOutcome::NotFound(f) => {
            let v = chars_of(f.as_str());
            let msg = has_prefix(&v, "on_msg");
            let message = has_prefix(&v, "on_message");
            if attempt == 0 && msg {
                Some(1)
            } else if attempt == 0 && message {
                Some(2)
            } else if 1 <= attempt && attempt <= 2 && (msg || message) {
                Some(attempt + 1)
            } else {
                None
            }
        },
        _ => None,
    }
}

/// Whether a dispatch that ended with `outcome` is worth reporting: a
/// script that simply handles no messages is normal.
pub fn report_failure(outcome: &HandlerOutcome) -> (r: bool)
    ensures
        r == (*outcome is Failed),
{
    match outcome {
        HandlerOutcome::Failed => true,
        _ => false,
    }
}

} // verus!
