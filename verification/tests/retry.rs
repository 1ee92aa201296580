use gh_enterprise_repos::retry::{backoff, is_about_limit, reply, verdict, RateState, Reply, Verdict};

#[test]
fn headers_update_what_is_known() {
    let mut rate = RateState::new();
    assert_eq!((rate.limit, rate.remaining, rate.reset), (None, None, None));
    rate.note(Some(5000), Some(4999), Some(100));
    rate.note(None, Some(4998), None);
    assert_eq!(rate.limit, Some(5000));
    assert_eq!(rate.remaining, Some(4998));
    assert_eq!(rate.reset, Some(100));
}

#[test]
fn the_last_of_the_budget_is_saved_until_the_reset() {
    let rate = |remaining, reset| RateState {
        limit: Some(5000),
        remaining,
        reset,
    };
    assert_eq!(rate(Some(1), Some(100)).pause(40), 60);
    assert_eq!(rate(Some(0), Some(100)).pause(99), 1);
    assert_eq!(rate(Some(1), Some(100)).pause(100), 0);
    assert_eq!(rate(Some(2), Some(100)).pause(40), 0);
    assert_eq!(rate(None, Some(100)).pause(40), 0);
    assert_eq!(rate(Some(0), None).pause(40), 0);
}

#[test]
fn responses_are_told_apart() {
    assert_eq!(reply(200, None, true, false), Reply::Answer);
    assert_eq!(reply(200, None, false, true), Reply::RateLimited(None));
    assert_eq!(reply(429, Some(3), false, false), Reply::RateLimited(Some(3)));
    assert_eq!(reply(403, Some(3), false, false), Reply::RateLimited(Some(3)));
    assert_eq!(reply(403, None, true, false), Reply::RateLimited(None));
    assert_eq!(reply(403, None, false, true), Reply::RateLimited(None));
    assert_eq!(reply(403, None, false, false), Reply::Refused);
    assert_eq!(reply(401, None, false, false), Reply::Refused);
    assert_eq!(reply(302, None, false, false), Reply::Refused);
    assert_eq!(reply(500, None, false, false), Reply::Unavailable(None));
    assert_eq!(reply(503, Some(9), false, false), Reply::Unavailable(Some(9)));
    assert_eq!(reply(600, None, false, false), Reply::Refused);
}

#[test]
fn pauses_double_up_to_a_minute() {
    let pauses: Vec<u64> = (0..8).map(backoff).collect();
    assert_eq!(pauses, [1, 2, 4, 8, 16, 32, 60, 60]);
    assert_eq!(backoff(u32::MAX), 60);
}

#[test]
fn verdicts_follow_the_reply() {
    let unknown = RateState::new();
    let spent = RateState {
        limit: Some(10),
        remaining: Some(0),
        reset: Some(70),
    };
    assert_eq!(verdict(Reply::Answer, 9, 5, &spent, 0), Verdict::Accept);
    assert_eq!(verdict(Reply::Refused, 0, 5, &spent, 0), Verdict::GiveUp);
    assert_eq!(
        verdict(Reply::RateLimited(Some(7)), 0, 5, &spent, 0),
        Verdict::Retry(7)
    );
    assert_eq!(
        verdict(Reply::RateLimited(None), 0, 5, &spent, 60),
        Verdict::Retry(10)
    );
    assert_eq!(
        verdict(Reply::RateLimited(None), 3, 5, &unknown, 60),
        Verdict::Retry(8)
    );
    assert_eq!(
        verdict(Reply::RateLimited(None), 5, 5, &unknown, 60),
        Verdict::GiveUp
    );
    assert_eq!(
        verdict(Reply::Unavailable(None), 4, 5, &spent, 60),
        Verdict::Retry(16)
    );
    assert_eq!(
        verdict(Reply::Unavailable(Some(2)), 4, 5, &spent, 60),
        Verdict::Retry(2)
    );
    assert_eq!(
        verdict(Reply::Unavailable(None), 0, 0, &unknown, 0),
        Verdict::GiveUp
    );
}

#[test]
fn errors_about_limits_are_recognized() {
    assert!(is_about_limit(Some("RATE_LIMITED"), ""));
    assert!(is_about_limit(None, "You have exceeded a secondary rate limit."));
    assert!(is_about_limit(Some("OTHER"), "secondary rate limit"));
    assert!(!is_about_limit(Some("rate_limited"), "secondary rate limi"));
    assert!(!is_about_limit(None, ""));
    assert!(!is_about_limit(Some("NOT_FOUND"), "Could not resolve to an Enterprise"));
}
