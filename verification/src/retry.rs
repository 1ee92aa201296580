//! When a request is tried again, and how long to wait before it.
//!
//! Times are whole seconds; points in time are seconds since the Unix epoch.

pub mod laws;

use vstd::arithmetic::power2::{lemma2_to64, lemma_pow2_strictly_increases, pow2};
use vstd::prelude::*;
use crate::text::{has_text, same_text, stands_at};

verus! {

/// The longest pause between two tries, unless the server asks for a longer one.
pub const LONGEST_BACKOFF: u64 = 60;

/// The rate limit, as far as the server has told.
#[derive(Debug, Clone, Copy, PartialEq, Eq, Structural)]
pub struct RateState {
    /// How many points there are until the reset.
    pub limit: Option<u64>,
    /// How many of them are left.
    pub remaining: Option<u64>,
    /// When the limit is reset.
    pub reset: Option<u64>,
}

/// What came back for a request.
#[derive(Debug, Clone, Copy, PartialEq, Eq, Structural)]
pub enum Reply {
    /// The answer.
    Answer,
    /// Too many requests, with the pause that the server asks for.
    RateLimited(Option<u64>),
    /// Nothing usable for now: a failure of the server or a timeout.
    Unavailable(Option<u64>),
    /// Something that trying again will not change, such as a host that does not resolve.
    Refused,
}

/// What to do about a reply.
#[derive(Debug, Clone, Copy, PartialEq, Eq, Structural)]
pub enum Verdict {
    Accept,
    /// Try again after this many seconds.
    Retry(u64),
    GiveUp,
}

impl RateState {
    /// Nothing is known yet.
    pub fn new() -> (res: Self)
        ensures
            res == (RateState { limit: None, remaining: None, reset: None }),
    {
        RateState { limit: None, remaining: None, reset: None }
    }

    /// Takes note of the headers of a response; what is missing there stays as it was.
    pub fn note(&mut self, limit: Option<u64>, remaining: Option<u64>, reset: Option<u64>)
        ensures
            final(self).limit == (if limit is Some {
                limit
            } else {
                old(self).limit
            }),
            final(self).remaining == (if remaining is Some {
                remaining
            } else {
                old(self).remaining
            }),
            final(self).reset == (if reset is Some {
                reset
            } else {
                old(self).reset
            }),
    {
        if limit.is_some() {
            self.limit = limit;
        }
        if remaining.is_some() {
            self.remaining = remaining;
        }
        if reset.is_some() {
            self.reset = reset;
        }
    }

    /// How long to wait before the next request: the last of the budget is not spent before the
    /// reset.
    pub open spec fn pause_at(self, now: u64) -> u64 {
        match (self.remaining, self.reset) {
            (Some(remaining), Some(reset)) => if remaining <= 1 && reset > now {
                (reset - now) as u64
            } else {
                0
            },
            _ => 0,
        }
    }

    /// How long to wait before the next request.
    pub fn pause(&self, now: u64) -> (res: u64)
        ensures
            res == self.pause_at(now),
    {
        match (self.remaining, self.reset) {
            (Some(remaining), Some(reset)) => if remaining <= 1 && reset > now {
                reset - now
            } else {
                0
            },
            _ => 0,
        }
    }
}

/// An error in a response that speaks of a rate limit: by its type, as on an otherwise successful
/// response, or in its message, as for a secondary limit.
pub open spec fn speaks_of_limit(kind: Option<Seq<char>>, message: Seq<char>) -> bool {
    kind == Some("RATE_LIMITED"@) || exists|i: int|
        stands_at(message, "secondary rate limit"@, i)
}

/// Whether an error in a response speaks of a rate limit.
pub fn is_about_limit(kind: Option<&str>, message: &str) -> (res: bool)
    ensures
        res == speaks_of_limit(
            match kind {
                Some(kind) => Some(kind@),
                None => None,
            },
            message@,
        ),
{
    let by_kind = match kind {
        Some(kind) => same_text(kind, "RATE_LIMITED"),
        None => false,
    };
    by_kind || has_text(message, "secondary rate limit")
}

/// What a response is: its status, the pause that it asks for, whether the budget is spent, and
/// whether an error in its body speaks of a rate limit.
pub open spec fn reply_of(
    status: u16,
    retry_after: Option<u64>,
    spent: bool,
    limited: bool,
) -> Reply {
    if 200 <= status < 300 {
        if limited {
            Reply::RateLimited(retry_after)
        } else {
            Reply::Answer
        }
    } else if status == 429 || status == 403 && (retry_after is Some || spent || limited) {
        Reply::RateLimited(retry_after)
    } else if 500 <= status < 600 {
        Reply::Unavailable(retry_after)
    } else {
        Reply::Refused
    }
}

/// What a response is.
pub fn reply(
    status: u16,
    retry_after: Option<u64>,
    spent: bool,
    limited: bool,
) -> (res: Reply)
    ensures
        res == reply_of(status, retry_after, spent, limited),
{
    if 200 <= status && status < 300 {
        if limited {
            Reply::RateLimited(retry_after)
        } else {
            Reply::Answer
        }
    } else if status == 429 || status == 403 && (retry_after.is_some() || spent
        || limited) {
        Reply::RateLimited(retry_after)
    } else if 500 <= status && status < 600 {
        Reply::Unavailable(retry_after)
    } else {
        Reply::Refused
    }
}

/// The pause after the try with this number, counted from zero: it doubles up to the longest.
pub open spec fn backoff_after(attempt: u32) -> u64 {
    if pow2(attempt as nat) < LONGEST_BACKOFF {
        pow2(attempt as nat) as u64
    } else {
        LONGEST_BACKOFF
    }
}

/// The pause after the try with this number, counted from zero.
pub fn backoff(attempt: u32) -> (res: u64)
    ensures
        res == backoff_after(attempt),
{
    proof {
        lemma2_to64();
        if attempt > 6 {
            lemma_pow2_strictly_increases(6, attempt as nat);
        }
    }
    match attempt {
        0 => 1,
        1 => 2,
        2 => 4,
        3 => 8,
        4 => 16,
        5 => 32,
        _ => LONGEST_BACKOFF,
    }
}

/// What to do about a reply to the try with this number, counted from zero. A pause that the server
/// asks for is kept; otherwise a spent budget waits for the reset, and all else backs off.
pub open spec fn verdict_of(
    reply: Reply,
    attempt: u32,
    max_retries: u32,
    rate: RateState,
    now: u64,
) -> Verdict {
    match reply {
        Reply::Answer => Verdict::Accept,
        Reply::Refused => Verdict::GiveUp,
        Reply::RateLimited(asked) => if attempt >= max_retries {
            Verdict::GiveUp
        } else if let Some(seconds) = asked {
            Verdict::Retry(seconds)
        } else if rate.pause_at(now) > 0 {
            Verdict::Retry(rate.pause_at(now))
        } else {
            Verdict::Retry(backoff_after(attempt))
        },
        Reply::Unavailable(asked) => if attempt >= max_retries {
            Verdict::GiveUp
        } else if let Some(seconds) = asked {
            Verdict::Retry(seconds)
        } else {
            Verdict::Retry(backoff_after(attempt))
        },
    }
}

/// What to do about a reply to the try with this number, counted from zero.
pub fn verdict(reply: Reply, attempt: u32, max_retries: u32, rate: &RateState, now: u64) -> (res:
    Verdict)
    ensures
        res == verdict_of(reply, attempt, max_retries, *rate, now),
{
    match reply {
        Reply::Answer => Verdict::Accept,
        Reply::Refused => Verdict::GiveUp,
        Reply::RateLimited(asked) => {
            if attempt >= max_retries {
                return Verdict::GiveUp;
            }
            if let Some(seconds) = asked {
                return Verdict::Retry(seconds);
            }
            let pause: u64 = rate.pause(now);
            if pause > 0 {
                Verdict::Retry(pause)
            } else {
                Verdict::Retry(backoff(attempt))
            }
        },
        Reply::Unavailable(asked) => {
            if attempt >= max_retries {
                return Verdict::GiveUp;
            }
            match asked {
                Some(seconds) => Verdict::Retry(seconds),
                None => Verdict::Retry(backoff(attempt)),
            }
        },
    }
}

/// Pauses never get shorter from one try to the next, and stay between one second and the longest.
pub proof fn backoff_grows(a: u32, b: u32)
    requires
        a <= b,
    ensures
        1 <= backoff_after(a) <= backoff_after(b) <= LONGEST_BACKOFF,
{
    lemma2_to64();
    if 0 < a {
        lemma_pow2_strictly_increases(0, a as nat);
    }
    if a < b {
        lemma_pow2_strictly_increases(a as nat, b as nat);
    }
}

/// A request is tried again at most as often as allowed, whatever comes back.
pub proof fn retries_are_limited(
    reply: Reply,
    attempt: u32,
    max_retries: u32,
    rate: RateState,
    now: u64,
)
    requires
        attempt >= max_retries,
    ensures
        !(verdict_of(reply, attempt, max_retries, rate, now) is Retry),
{
}

/// What trying again will not change is not tried again.
pub proof fn a_refusal_is_final(attempt: u32, max_retries: u32, rate: RateState, now: u64)
    ensures
        verdict_of(Reply::Refused, attempt, max_retries, rate, now) == Verdict::GiveUp,
{
}

/// After a pause, the last of the budget is spent only once the limit has been reset.
pub proof fn the_last_of_the_budget_waits_for_the_reset(rate: RateState, now: u64)
    requires
        rate.remaining matches Some(remaining) && remaining <= 1,
        rate.reset is Some,
    ensures
        now + rate.pause_at(now) >= rate.reset->0,
{
}

} // verus!
