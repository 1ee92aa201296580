//! What holds of tries and pauses.

use vstd::prelude::*;
use crate::retry::{backoff_after, reply_of, speaks_of_limit, verdict_of, RateState, Reply, Verdict};
use crate::text::stands_at;

verus! {

/// A successful response is an answer, unless it speaks of a rate limit.
pub proof fn success_is_an_answer_unless_limited(
    status: u16,
    retry_after: Option<u64>,
    spent: bool,
    limited: bool,
)
    requires
        200 <= status <= 299,
    ensures
        reply_of(status, retry_after, spent, limited) == (if limited {
            Reply::RateLimited(retry_after)
        } else {
            Reply::Answer
        }),
{
}

/// Nothing but a successful response is an answer.
pub proof fn only_success_is_an_answer(
    status: u16,
    retry_after: Option<u64>,
    spent: bool,
    limited: bool,
)
    requires
        reply_of(status, retry_after, spent, limited) is Answer,
    ensures
        200 <= status <= 299 && !limited,
{
}

/// Too many requests are a rate limit, and so is a refusal that asks for a pause, comes with a
/// spent budget or speaks of a limit. The pause that is asked for is the one of the response.
pub proof fn rate_limits_are_recognized(
    status: u16,
    retry_after: Option<u64>,
    spent: bool,
    limited: bool,
)
    ensures
        status == 429 ==> reply_of(status, retry_after, spent, limited) == Reply::RateLimited(
            retry_after,
        ),
        status == 403 && (spent || limited || retry_after is Some) ==> reply_of(
            status,
            retry_after,
            spent,
            limited,
        ) == Reply::RateLimited(retry_after),
        status == 403 && !spent && !limited && retry_after is None ==> reply_of(
            status,
            retry_after,
            spent,
            limited,
        ) is Refused,
{
}

/// A failure of the server is unavailability, with the pause of the response; any other status is a
/// refusal.
pub proof fn failures_of_the_server_are_unavailability(
    status: u16,
    retry_after: Option<u64>,
    spent: bool,
    limited: bool,
)
    ensures
        500 <= status <= 599 ==> reply_of(status, retry_after, spent, limited)
            == Reply::Unavailable(retry_after),
        (status < 200 || 300 <= status <= 499 || status >= 600) && status != 429 && status != 403
            ==> reply_of(status, retry_after, spent, limited) is Refused,
{
}

/// An error of the type for rate limits speaks of one whatever its message is; of others, exactly
/// those with the words for it in their message do.
pub proof fn limits_are_spoken_of_by_type_or_by_message(
    kind: Option<Seq<char>>,
    message: Seq<char>,
    i: int,
)
    ensures
        speaks_of_limit(Some("RATE_LIMITED"@), message),
        stands_at(message, "secondary rate limit"@, i) ==> speaks_of_limit(kind, message),
        kind != Some("RATE_LIMITED"@) && (forall|k: int|
            !stands_at(message, "secondary rate limit"@, k)) ==> !speaks_of_limit(kind, message),
{
}

/// An answer is taken, on whatever try it comes.
pub proof fn an_answer_is_taken(attempt: u32, max_retries: u32, rate: RateState, now: u64)
    ensures
        verdict_of(Reply::Answer, attempt, max_retries, rate, now) == Verdict::Accept,
{
}

/// Nothing but an answer is taken.
pub proof fn only_an_answer_is_taken(
    reply: Reply,
    attempt: u32,
    max_retries: u32,
    rate: RateState,
    now: u64,
)
    requires
        verdict_of(reply, attempt, max_retries, rate, now) is Accept,
    ensures
        reply is Answer,
{
}

/// As long as tries are left, what is limited or unavailable is tried again, after the pause that
/// the server asks for if it asks for one.
pub proof fn tries_that_are_left_are_made(
    asked: Option<u64>,
    attempt: u32,
    max_retries: u32,
    rate: RateState,
    now: u64,
)
    requires
        attempt < max_retries,
    ensures
        verdict_of(Reply::RateLimited(asked), attempt, max_retries, rate, now) is Retry,
        verdict_of(Reply::Unavailable(asked), attempt, max_retries, rate, now) is Retry,
        asked matches Some(pause) ==> verdict_of(
            Reply::RateLimited(asked),
            attempt,
            max_retries,
            rate,
            now,
        ) == Verdict::Retry(pause) && verdict_of(
            Reply::Unavailable(asked),
            attempt,
            max_retries,
            rate,
            now,
        ) == Verdict::Retry(pause),
{
}

/// Without a pause that is asked for, what is unavailable backs off, and what is limited waits for
/// the reset if the budget is spent and backs off otherwise.
pub proof fn without_being_asked_a_try_backs_off(
    attempt: u32,
    max_retries: u32,
    rate: RateState,
    now: u64,
)
    requires
        attempt < max_retries,
    ensures
        verdict_of(Reply::Unavailable(None), attempt, max_retries, rate, now) == Verdict::Retry(
            backoff_after(attempt),
        ),
        rate.pause_at(now) == 0 ==> verdict_of(
            Reply::RateLimited(None),
            attempt,
            max_retries,
            rate,
            now,
        ) == Verdict::Retry(backoff_after(attempt)),
        rate.pause_at(now) > 0 ==> verdict_of(
            Reply::RateLimited(None),
            attempt,
            max_retries,
            rate,
            now,
        ) == Verdict::Retry(rate.pause_at(now)),
{
}

/// There is a pause exactly if at most one point is left and the reset is still to come, and it
/// lasts until the reset.
pub proof fn a_pause_lasts_until_the_reset(rate: RateState, now: u64)
    ensures
        rate.pause_at(now) > 0 <==> rate.remaining is Some && rate.remaining->0 <= 1
            && rate.reset is Some && rate.reset->0 > now,
        rate.pause_at(now) > 0 ==> now + rate.pause_at(now) == rate.reset->0,
{
}

/// The first pause is a second, and each is twice the one before or the longest.
pub proof fn pauses_double(attempt: u32)
    requires
        attempt < u32::MAX,
    ensures
        backoff_after(0) == 1,
        2 * backoff_after(attempt) <= 60 ==> backoff_after((attempt + 1) as u32) == 2
            * backoff_after(attempt),
        2 * backoff_after(attempt) > 60 ==> backoff_after((attempt + 1) as u32) == 60,
{
    vstd::arithmetic::power2::lemma2_to64();
    vstd::arithmetic::power2::lemma_pow2_unfold((attempt + 1) as nat);
}

} // verus!
