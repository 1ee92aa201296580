use gh_enterprise_repos::yaml::scalar::{
    double_quoted, is_number_like, is_plain_safe, needs_escaping, resolves_to_non_string,
    single_quoted, string_scalar,
};
use gh_enterprise_repos::yaml::to_string;
use gh_enterprise_repos::yaml::value::{Number, Tag, TaggedValue, Value};

fn number(n: &serde_yaml_ng::Number) -> Number {
    if let Some(n) = n.as_u64() {
        Number::Unsigned(n)
    } else if let Some(n) = n.as_i64() {
        Number::Signed(n)
    } else {
        Number::Float(n.to_string())
    }
}

fn value(v: &serde_yaml_ng::Value) -> Value {
    match v {
        serde_yaml_ng::Value::Null => Value::Null,
        serde_yaml_ng::Value::Bool(b) => Value::Bool(*b),
        serde_yaml_ng::Value::Number(n) => Value::Number(number(n)),
        serde_yaml_ng::Value::String(s) => Value::String(s.clone()),
        serde_yaml_ng::Value::Sequence(items) => Value::Sequence(items.iter().map(value).collect()),
        serde_yaml_ng::Value::Mapping(entries) => {
            Value::Mapping(entries.iter().map(|(k, v)| (value(k), value(v))).collect())
        }
        serde_yaml_ng::Value::Tagged(tagged) => Value::Tagged(Box::new(TaggedValue {
            tag: Tag::new(tagged.tag.to_string()),
            value: value(&tagged.value),
        })),
    }
}

fn emit(yaml: &str) -> String {
    let parsed: serde_yaml_ng::Value = serde_yaml_ng::from_str(yaml).expect("input parses");
    to_string(&value(&parsed))
}

/// Emitting and re-parsing must give back exactly what went in.
fn round_trips(yaml: &str) -> String {
    let original: serde_yaml_ng::Value = serde_yaml_ng::from_str(yaml).expect("input parses");
    let emitted = to_string(&value(&original));
    let reparsed: serde_yaml_ng::Value = serde_yaml_ng::from_str(&emitted).expect("output parses");
    assert_eq!(
        reparsed, original,
        "round trip changed the data:\n{emitted}"
    );
    emitted
}

#[test]
fn sequences_are_indented_under_their_key() {
    assert_eq!(
        round_trips("organizations: [one, two]"),
        "organizations:\n  - one\n  - two\n"
    );
}

#[test]
fn a_sequence_of_mappings_starts_on_the_dash_line() {
    let emitted = round_trips("repositories: [{org: acme, name: one}, {org: acme, name: two}]");
    assert_eq!(
        emitted,
        "repositories:\n  - org: acme\n    name: one\n  - org: acme\n    name: two\n"
    );
}

#[test]
fn nesting_keeps_stacking_by_two() {
    let emitted = round_trips("a: {b: {c: [d]}}");
    assert_eq!(emitted, "a:\n  b:\n    c:\n      - d\n");
}

#[test]
fn a_sequence_inside_a_sequence_item_is_indented_too() {
    let emitted = round_trips("repositories: [{org: acme, topics: [x, y]}]");
    assert_eq!(
        emitted,
        "repositories:\n  - org: acme\n    topics:\n      - x\n      - y\n"
    );
}

#[test]
fn empty_collections_stay_inline() {
    assert_eq!(
        round_trips("{repositories: [], source: {}}"),
        "repositories: []\nsource: {}\n"
    );
}

/// Text that a parser would hand back as a bool, null or number gets
/// double quotes — the style `yq` uses for exactly this case.
#[test]
fn scalars_that_would_change_type_are_double_quoted() {
    let emitted = round_trips(
        r#"{a: "true", b: "TRUE", c: "123", d: "1.5", e: "null", f: "0x1f", g: "0755", h: "1_000", i: "+7", j: "1e5", k: ""}"#,
    );
    for line in emitted.lines() {
        let (_, value) = line.split_once(": ").expect("one pair per line");
        assert!(value.starts_with('"'), "expected double quotes in `{line}`");
    }
}

/// Text that only collides with YAML punctuation gets single quotes, which
/// is again what `yq` picks.
#[test]
fn punctuation_that_yaml_reads_as_syntax_is_single_quoted() {
    let emitted = round_trips(
        r##"{a: "- dash first", b: "key: value", c: "trailing #comment", d: "ends with:", e: " padded ", f: "#hash", g: "*anchor"}"##,
    );
    for line in emitted.lines() {
        let (_, value) = line.split_once(": ").expect("one pair per line");
        assert!(
            value.starts_with('\''),
            "expected single quotes in `{line}`"
        );
    }
    assert!(round_trips("a: \"it's\"").contains("a: it's\n"));
    assert!(round_trips("a: \"it's: here\"").contains("a: 'it''s: here'\n"));
}

/// YAML 1.1 read `yes` and `On` as booleans; the 1.2 core schema that `yq`
/// and this crate's parser follow does not, so they stay unquoted.
#[test]
fn words_only_yaml_1_1_called_booleans_stay_plain() {
    assert_eq!(
        round_trips("{a: 'yes', b: 'On', c: 'inf', d: 'nan', e: '1:30'}"),
        "a: yes\nb: On\nc: inf\nd: nan\ne: 1:30\n"
    );
}

#[test]
fn ordinary_text_stays_plain() {
    let emitted = round_trips(
        "{url: 'https://github.com/acme/one', when: '2024-09-17T07:53:35Z', name: liboqs-dotnet, desc: 'A toolset for CBOM (v2), fast', bmp: 'café → x'}",
    );
    assert!(emitted.contains("url: https://github.com/acme/one\n"));
    assert!(emitted.contains("when: 2024-09-17T07:53:35Z\n"));
    assert!(emitted.contains("name: liboqs-dotnet\n"));
    assert!(emitted.contains("desc: A toolset for CBOM (v2), fast\n"));
    assert!(emitted.contains("bmp: café → x\n"));
}

/// `yq` escapes anything above the basic multilingual plane, so emoji in a
/// repository description come out as `\U…` rather than raw.
#[test]
fn characters_above_the_basic_plane_are_escaped() {
    assert_eq!(
        round_trips("desc: 🌔 Perun's framework"),
        "desc: \"\\U0001F314 Perun's framework\"\n"
    );
}

#[test]
fn strings_that_span_lines_are_escaped_onto_one_line() {
    let emitted = round_trips("desc: \"one\\ntwo\"");
    assert_eq!(emitted, "desc: \"one\\ntwo\"\n");
}

#[test]
fn numbers_and_booleans_are_not_quoted() {
    assert_eq!(
        round_trips("{stars: 120, archived: false, ratio: 1.5}"),
        "stars: 120\narchived: false\nratio: 1.5\n"
    );
}

#[test]
fn a_top_level_sequence_starts_at_the_left_margin() {
    assert_eq!(emit("[one, two]"), "- one\n- two\n");
}

#[test]
fn a_lone_scalar_is_a_line() {
    assert_eq!(emit("~"), "null\n");
    assert_eq!(emit("word"), "word\n");
    assert_eq!(emit("[]"), "[]\n");
    assert_eq!(emit("{}"), "{}\n");
    assert_eq!(emit("-7"), "-7\n");
}

#[test]
fn numbers_are_spelled_in_decimal() {
    let spelled = |n: Number| to_string(&Value::Number(n));
    assert_eq!(spelled(Number::Unsigned(0)), "0\n");
    assert_eq!(spelled(Number::Unsigned(9)), "9\n");
    assert_eq!(spelled(Number::Unsigned(10)), "10\n");
    assert_eq!(spelled(Number::Unsigned(u64::MAX)), "18446744073709551615\n");
    assert_eq!(spelled(Number::Signed(-1)), "-1\n");
    assert_eq!(spelled(Number::Signed(0)), "0\n");
    assert_eq!(spelled(Number::Signed(i64::MIN)), "-9223372036854775808\n");
    assert_eq!(spelled(Number::Float(".inf".to_string())), ".inf\n");
}

#[test]
fn sequences_nest_on_their_dashes() {
    assert_eq!(
        round_trips("[[a, [b, c]], {k: [d]}, [{x: y, z: [w]}]]"),
        "- - a\n  - - b\n    - c\n- k:\n    - d\n- - x: y\n    z:\n      - w\n"
    );
}

#[test]
fn complex_keys_are_written_in_flow_style() {
    assert_eq!(round_trips("? [a, {b: c}]\n: d"), "[a, {b: c}]: d\n");
    assert_eq!(round_trips("{~: a, 1: b, true: c}"), "null: a\n1: b\ntrue: c\n");
}

#[test]
fn a_tag_stands_before_its_value() {
    let tagged = |tag: &str, value: Value| {
        to_string(&Value::Tagged(Box::new(TaggedValue {
            tag: Tag::new(tag.to_string()),
            value,
        })))
    };
    assert_eq!(tagged("thing", Value::Bool(true)), "!thing true\n");
    assert_eq!(tagged("!thing", Value::Null), "!thing null\n");
    assert_eq!(tagged("!", Value::Null), "!! null\n");
    assert_eq!(
        tagged("t", Value::Sequence(vec![Value::Null, Value::Bool(false)])),
        "!t [null, false]\n"
    );
    assert_eq!(round_trips("a: !t x"), "a: !t x\n");
}

#[test]
fn every_escape_is_the_shortest() {
    assert_eq!(
        double_quoted("\"\\\0\u{7}\u{8}\t\n\u{b}\u{c}\r\u{1b}\u{85}\u{2028}\u{2029}"),
        "\"\\\"\\\\\\0\\a\\b\\t\\n\\v\\f\\r\\e\\N\\L\\P\""
    );
    assert_eq!(
        double_quoted("\u{1}\u{1f}\u{7f}\u{9f}\u{10ffff}\u{10000}\u{ffff}é/"),
        "\"\\x01\\x1F\\x7F\\x9F\\U0010FFFF\\U00010000\u{ffff}é/\""
    );
    assert_eq!(single_quoted("it's ''"), "'it''s '''''");
    assert_eq!(single_quoted(""), "''");
}

#[test]
fn numbers_in_waiting_are_recognized() {
    for s in [
        "0", "7", "-7", "+7", "1.5", ".5", "5.", "1e5", "1E+5", "1.e-5", "0x1F", "-0xf_f", "0o17",
        "0b101", "0X1f", "1_000", "_1", ".inf", "-.INF", "+.Inf", ".nan", ".NaN", "0755", "12__", "1._5",
    ] {
        assert!(is_number_like(s), "`{s}`");
        assert!(resolves_to_non_string(s), "`{s}`");
    }
    for s in [
        "", "-", "+", ".", "1e", "1e+", "1.2.3", "0x", "0x_", "0xg", "0o8", "0b2", "1:30",
        "1 2", "inf", "nan", ".iNf", "--1", "1e5e5", "1e5.0", "_", "- 1", "٣", "e5", "E5", ".e5", "+e5", "_e5", "-.nan", "+.nan", "+.NAN", ".Nan",
    ] {
        assert!(!is_number_like(s), "`{s}`");
    }
    for s in [
        "", "~", "null", "Null", "NULL", "true", "True", "TRUE", "false", "False", "FALSE",
    ] {
        assert!(resolves_to_non_string(s), "`{s}`");
    }
    for s in ["nULL", "tRUE", "yes", "no", "Off", "null "] {
        assert!(!resolves_to_non_string(s), "`{s}`");
    }
}

#[test]
fn plain_scalars_keep_clear_of_syntax() {
    for s in ["a", "a:b", "a#b", "a, b", "a [b] {c}", "a-", ".", "...", "\\", "x'", "é"] {
        assert!(is_plain_safe(s), "`{s}`");
    }
    for c in "-?:,[]{}#&*!|>'\"%@`".chars() {
        assert!(!is_plain_safe(&format!("{c}a")), "`{c}`");
    }
    for s in ["", " a", "a ", "\u{a0}a", "a: b", "a #b", "a:", ":", " "] {
        assert!(!is_plain_safe(s), "`{s}`");
    }
}

#[test]
fn characters_that_need_escapes_are_recognized() {
    for s in ["\0", "\t", "\n", "\u{7f}", "\u{80}", "\u{9f}", "\u{2028}", "\u{2029}", "\u{10000}"] {
        assert!(needs_escaping(s));
        assert!(needs_escaping(&format!("a{s}b")));
    }
    for s in ["", "plain", "\u{a0}", "\u{ffff}", "\u{2027}", "\u{d7ff}"] {
        assert!(!needs_escaping(s));
    }
}

#[test]
fn a_style_is_chosen_by_need() {
    assert_eq!(string_scalar("plain text"), "plain text");
    assert_eq!(string_scalar("- dash"), "'- dash'");
    assert_eq!(string_scalar("1"), "\"1\"");
    assert_eq!(string_scalar("a\tb"), "\"a\\tb\"");
    // A string that both needs an escape and looks like syntax takes double quotes.
    assert_eq!(string_scalar("- \n"), "\"- \\n\"");
}

/// Every scalar comes back as the string that it was, on one line.
#[test]
fn strings_of_all_kinds_read_back() {
    let mut strings: Vec<String> = [
        "", " ", "a: b", "# c", "'", "\"", "''", "\\", "null", "~", "0x1f", "- a", "a\r\nb", "...x",
        "---", "--- a", "%TAG", "&a", "*b", "!c", "a: 'b'", "tab\tend", "\u{feff}bom", "é: \u{85}",
        "<<", "=", "1_0", "2020-01-01",
    ]
    .iter()
    .map(|s| s.to_string())
    .collect();
    for n in 0..0x3000u32 {
        if let Some(c) = char::from_u32(n) {
            strings.push(format!("{c}"));
            strings.push(format!("x{c}y"));
        }
    }
    for s in strings {
        let written = string_scalar(&s);
        assert!(!written.contains('\n') && !written.contains('\r'), "{s:?}");
        let text = to_string(&Value::Mapping(vec![(
            Value::String("k".to_string()),
            Value::String(s.clone()),
        )]));
        let parsed: serde_yaml_ng::Value = serde_yaml_ng::from_str(&text)
            .unwrap_or_else(|e| panic!("{s:?} was written as {text:?}: {e}"));
        assert_eq!(parsed["k"].as_str(), Some(s.as_str()), "{text:?}");
        assert_eq!(to_string(&value(&parsed)), text);
    }
}

/// What only looks like a number stays plain, and comes back as the string that it was.
#[test]
fn a_number_needs_a_digit_before_its_exponent() {
    assert_eq!(string_scalar("e5"), "e5");
    assert_eq!(string_scalar("E5"), "E5");
    assert_eq!(string_scalar(".e5"), ".e5");
    assert_eq!(string_scalar("+.nan"), "+.nan");
    assert_eq!(string_scalar("-.nan"), "'-.nan'");
    assert_eq!(string_scalar(".nan"), "\".nan\"");
    assert_eq!(string_scalar("-.inf"), "\"-.inf\"");
    assert_eq!(string_scalar("1e5"), "\"1e5\"");
    assert_eq!(
        round_trips("{a: 'e5', b: '.e5', c: '+.nan', d: '-.nan', e: '1e5'}"),
        "a: e5\nb: .e5\nc: +.nan\nd: '-.nan'\ne: \"1e5\"\n"
    );
}

/// The spellings that only Go reads as numbers are quoted as well.
#[test]
fn spellings_of_go_are_quoted() {
    for s in ["1_000", "-0x1f", "0X1F", "0b11", "+0o7", "0B1", "0x_f", "1_0.5e1_0"] {
        assert!(resolves_to_non_string(s), "`{s}`");
        assert_eq!(string_scalar(s), format!("\"{s}\""));
    }
}

#[test]
fn a_document_holds_no_control_character_but_line_feeds() {
    let text = emit("{a: [\"x\\ty\", {b: \"\\r\\n\\u2028\\x7f\", c: ~}], \"k\\a\": 🌔}");
    assert_eq!(
        text,
        "a:\n  - \"x\\ty\"\n  - b: \"\\r\\n\\L\\x7F\"\n    c: null\n\"k\\a\": \"\\U0001F314\"\n"
    );
    assert!(text.ends_with('\n'));
    assert!(text.chars().all(|c| c == '\n' || !c.is_control()));
}

/// Writing what was read from a document gives the same document.
#[test]
fn rewriting_a_document_changes_nothing() {
    let text = emit("{z: [1, 1.5, e5, '1e5', {a: ~, b: []}], a: {y: 'it''s', x: \"a\\nb\"}}");
    assert_eq!(emit(&text), text);
}
