use gh_enterprise_repos::sort::{dedup, dedup_ignoring_case, distinct_ignoring_case, sort_ignoring_case};
use gh_enterprise_repos::text::{
    has_char, has_prefix, has_text, is_control, is_digit, is_whitespace, joined, not_after, same_text,
    same_text_ignoring_ascii_case, to_ascii_lower, trim, trim_slashes, trim_trailing_slashes,
};

fn strings(items: &[&str]) -> Vec<String> {
    items.iter().map(|s| s.to_string()).collect()
}

#[test]
fn characters_are_classified_as_std_does() {
    for c in '\0'..=char::MAX {
        assert_eq!(is_whitespace(c), c.is_whitespace(), "{c:?}");
        assert_eq!(is_control(c), c.is_control(), "{c:?}");
        assert_eq!(is_digit(c), c.is_ascii_digit(), "{c:?}");
        assert_eq!(to_ascii_lower(c), c.to_ascii_lowercase(), "{c:?}");
    }
}

#[test]
fn trimming_follows_std() {
    for s in ["", " ", "a", " a b ", "\u{3000}x\u{85}", "/a/", "//", "a//b//", "/ a /", "\t/\n"] {
        assert_eq!(trim(s), s.trim());
        assert_eq!(trim_slashes(s), s.trim_matches('/'));
        assert_eq!(trim_trailing_slashes(s), s.trim_end_matches('/'));
    }
}

#[test]
fn comparisons_follow_std() {
    let samples = ["", "a", "A", "ab", "b", "é", "É", "z", "\u{10ffff}", "\u{ffff}", "a\0"];
    for a in samples {
        for b in samples {
            assert_eq!(same_text(a, b), a == b);
            assert_eq!(same_text_ignoring_ascii_case(a, b), a.eq_ignore_ascii_case(b));
            assert_eq!(not_after(a, b), a <= b);
            assert_eq!(has_prefix(a, b), a.starts_with(b));
            assert_eq!(has_text(a, b), a.contains(b));
        }
        assert_eq!(has_char(a, 'a'), a.contains('a'));
    }
    assert_eq!(joined("a", "", "c"), "ac");
    assert!(has_text("aaab", "aab"));
    assert!(!has_text("aaa", "aab"));
}

#[test]
fn sorting_is_stable_and_ignores_case() {
    let items = strings(&["b", "A", "a", "B", "C", "aa", ""]);
    let mut expected = items.clone();
    expected.sort_by_key(|s| s.to_lowercase());
    assert_eq!(sort_ignoring_case(items), expected);
    assert_eq!(sort_ignoring_case(vec![]), Vec::<String>::new());
    let many: Vec<String> = (0..200u32).map(|n| format!("K{}", n * 7919 % 101)).collect();
    let mut expected = many.clone();
    expected.sort_by_key(|s| s.to_lowercase());
    assert_eq!(sort_ignoring_case(many), expected);
}

#[test]
fn only_neighbours_count_as_repetitions() {
    assert_eq!(dedup(strings(&["a", "a", "b", "a", "A"])), ["a", "b", "a", "A"]);
    assert_eq!(
        dedup_ignoring_case(strings(&["a", "A", "b", "É", "é", "a"])),
        ["a", "b", "É", "a"]
    );
}

#[test]
fn the_first_of_each_kind_is_kept() {
    assert_eq!(
        distinct_ignoring_case(strings(&["beta", "Acme", "BETA", "acme", "ACME", "gamma"])),
        ["Acme", "beta", "gamma"]
    );
}
