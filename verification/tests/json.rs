use meeting_scribe::json::Json;
use meeting_scribe::notation::{json_escape, quote};

fn parse(text: &str) -> Json {
    match Json::parse(text) {
        Ok(j) => j,
        Err(e) => panic!("{}", e.message),
    }
}

fn text_of(j: Option<&Json>) -> Option<&str> {
    match j {
        Some(Json::Str(s)) => Some(s),
        _ => None,
    }
}

#[test]
fn escape_covers_quote_backslash_and_line_feed() {
    assert_eq!(json_escape("a\"b\\c\nd\te"), "a\\\"b\\\\c\\nd\te");
    assert_eq!(json_escape(""), "");
    assert_eq!(json_escape("自分"), "自分");
    assert_eq!(quote("a\"b"), "\"a\\\"b\"");
}

#[test]
fn what_is_escaped_can_be_read_back() {
    for s in ["", "plain", "a\"b", "\\", "\\n", "line\nfeed", "\\\"\n\\", "マイク (Realtek)"] {
        assert!(!json_escape(s).contains('\n'));
        match parse(&quote(s)) {
            Json::Str(t) => assert_eq!(t, s),
            _ => panic!("a quoted text is a string"),
        }
    }
}

#[test]
fn every_kind_of_value_is_kept() {
    let j = parse("{\"b\": [1, -2, 0.5, 1e3, 18446744073709551615, \"x\\u3042\"], \"a\": null, \"c\": true}");
    let items = match j.member("b") {
        Some(Json::Array(items)) => items,
        _ => panic!("b is an array"),
    };
    let numbers: Vec<(Option<u64>, &str)> = items
        .iter()
        .filter_map(|i| match i {
            Json::Number(n, t) => Some((*n, t.as_str())),
            _ => None,
        })
        .collect();
    assert_eq!(
        numbers,
        vec![
            (Some(1), "1"),
            (None, "-2"),
            (None, "0.5"),
            (None, "1000.0"),
            (Some(u64::MAX), "18446744073709551615"),
        ]
    );
    assert_eq!(text_of(items.last()), Some("xあ"));
    assert!(matches!(j.member("a"), Some(Json::Null)));
    assert!(matches!(j.member("c"), Some(Json::Bool(true))));
    assert!(j.member("d").is_none());
    assert!(j.item(0).is_none());
}

#[test]
fn items_are_found_by_place() {
    let j = parse("[\"a\", \"b\"]");
    assert_eq!(text_of(j.item(0)), Some("a"));
    assert_eq!(text_of(j.item(1)), Some("b"));
    assert!(j.item(2).is_none());
    assert!(j.member("a").is_none());
}

#[test]
fn a_repeated_key_has_its_last_value() {
    let j = parse("{\"k\": \"first\", \"k\": \"last\"}");
    assert_eq!(text_of(j.member("k")), Some("last"));
}

#[test]
fn broken_text_is_refused_with_a_reason() {
    match Json::parse("{\"a\": ") {
        Ok(_) => panic!("this is not JSON"),
        Err(e) => assert!(e.message.contains("EOF"), "{}", e.message),
    }
    assert!(Json::parse("").is_err());
    assert!(Json::parse("1 2").is_err());
    assert!(Json::parse("\"a\tb\"").is_err());
}

#[test]
fn short_numbers_keep_their_value() {
    // A number with a point and few digits comes back as the same number.
    for text in ["0.200", "9.600", "10.500", "-0.000", "123456789012.345", "99999999.9", "0.1", "-1.0", "0.000000000000001"] {
        match parse(text) {
            Json::Number(None, t) => {
                let want: f64 = text.parse().unwrap();
                let got: f64 = t.parse().unwrap();
                assert_eq!(got, want);
                assert_eq!(
                    meeting_scribe::numeral::read_units(&t, 9),
                    meeting_scribe::numeral::read_units(text, 9)
                );
            }
            _ => panic!("{text} is a number with a point"),
        }
    }
}
