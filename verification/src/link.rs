//! Keeping the Wi-Fi station connected.

use vstd::prelude::*;

verus! {

/// Seconds between two checks of a working link.
pub const LINK_CHECK_SECS: u64 = 10;

/// Seconds to wait after a failed connection attempt.
pub const RETRY_SECS: u64 = 5;

/// What the link keeper has just learnt.
pub enum LinkEvent {
    /// The station reports whether it is connected.
    Status(bool),
    /// A connection attempt ended, successfully or not.
    Attempt(bool),
}

/// What the link keeper does next.
pub enum LinkAction {
    /// Configure the station and try to connect.
    Connect,
    /// Sleep this many seconds, then check the link again.
    Wait(u64),
    /// Check the link again at once.
    Check,
}

/// A disconnected station is connected again, a connected one is checked every
/// `LINK_CHECK_SECS`, and a failed attempt is retried after `RETRY_SECS`.
pub open spec fn link_decision(event: LinkEvent) -> LinkAction {
    match event {
        LinkEvent::Status(false) => LinkAction::Connect,
        LinkEvent::Status(true) => LinkAction::Wait(LINK_CHECK_SECS),
        LinkEvent::Attempt(false) => LinkAction::Wait(RETRY_SECS),
        LinkEvent::Attempt(true) => LinkAction::Check,
    }
}

/// What to do after `event` (see `link_decision`).
pub fn link_step(event: LinkEvent) -> (a: LinkAction)
    ensures
        a == link_decision(event),
{
    match event {
        LinkEvent::Status(connected) => {
            if connected {
                LinkAction::Wait(LINK_CHECK_SECS)
            } else {
                LinkAction::Connect
            }
        },
        LinkEvent::Attempt(ok) => {
            if ok {
                LinkAction::Check
            } else {
                LinkAction::Wait(RETRY_SECS)
            }
        },
    }
}

/// The link keeper: whether its last action was a connection attempt, so that the next answer
/// from the station is that attempt's outcome rather than a status check.
pub struct LinkKeeper {
    pub awaiting_attempt: bool,
}

/// How the next answer from the station is understood.
pub open spec fn link_event(awaiting_attempt: bool, answer: bool) -> LinkEvent {
    if awaiting_attempt {
        LinkEvent::Attempt(answer)
    } else {
        LinkEvent::Status(answer)
    }
}

impl LinkKeeper {
    /// A keeper whose first answer is a status check.
    pub fn new() -> (k: Self)
        ensures
            !k.awaiting_attempt,
    {
        LinkKeeper { awaiting_attempt: false }
    }

    /// Takes the station's answer to the last action (connected or not, or whether the attempt
    /// succeeded) and gives the next action.
    pub fn observe(&mut self, answer: bool) -> (a: LinkAction)
        ensures
            a == link_decision(link_event(old(self).awaiting_attempt, answer)),
            final(self).awaiting_attempt == (a is Connect),
    {
        let event = if self.awaiting_attempt { LinkEvent::Attempt(answer) } else { LinkEvent::Status(answer) };
        let a = link_step(event);
        self.awaiting_attempt = match a {
            LinkAction::Connect => true,
            _ => false,
        };
        a
    }
}

/// The actions a fresh keeper gives for the station's answers, in order.
pub open spec fn link_run(answers: Seq<bool>) -> Seq<LinkAction>
    decreases answers.len(),
{
    if answers.len() == 0 {
        Seq::empty()
    } else {
        let prev = link_run(answers.drop_last());
        let awaiting = prev.len() > 0 && prev.last() is Connect;
        prev.push(link_decision(link_event(awaiting, answers.last())))
    }
}

/// Over any run of the link keeper: it tries to connect exactly when a status check finds the
/// station disconnected; while connected it checks again every `LINK_CHECK_SECS`; after a
/// failed attempt it waits `RETRY_SECS` before checking again; after a successful attempt it
/// checks at once.
pub proof fn lemma_link_run(answers: Seq<bool>, k: int)
    requires
        0 <= k < answers.len(),
    ensures
        link_run(answers).len() == answers.len(),
        ({
            let acts = link_run(answers);
            let after_attempt = k > 0 && acts[k - 1] is Connect;
            &&& (acts[k] is Connect) == (!after_attempt && !answers[k])
            &&& (acts[k] == LinkAction::Wait(LINK_CHECK_SECS)) == (!after_attempt && answers[k])
            &&& after_attempt ==> acts[k] == if answers[k] { LinkAction::Check } else { LinkAction::Wait(RETRY_SECS) }
        }),
    decreases answers.len(),
{
    lemma_link_run_len(answers);
    let prev = answers.drop_last();
    if k < answers.len() - 1 {
        lemma_link_run(prev, k);
        lemma_link_run_len(prev);
        assert(prev[k] == answers[k]);
        if k > 0 {
            assert(link_run(answers)[k - 1] == link_run(prev)[k - 1]);
        }
        assert(link_run(answers)[k] == link_run(prev)[k]);
    } else {
        lemma_link_run_len(prev);
        if k > 0 {
            assert(link_run(answers)[k - 1] == link_run(prev)[k - 1]);
        }
    }
}

proof fn lemma_link_run_len(answers: Seq<bool>)
    ensures
        link_run(answers).len() == answers.len(),
    decreases answers.len(),
{
    if answers.len() > 0 {
        lemma_link_run_len(answers.drop_last());
    }
}

} // verus!
