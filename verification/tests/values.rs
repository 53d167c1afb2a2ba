//! Texts, numbers, JSON and times.

use uwu_wiki::assoc::{get, put, remove};
use uwu_wiki::error::WikiError;
use uwu_wiki::float::{double_at_most, double_equal, double_less, F32};
use uwu_wiki::json::{from_outside, number_bits, parse_json, JsonValue};
use uwu_wiki::text::{
    contains_str, count_str, ends_str, is_white, join, show_i64, show_u64, split_lines, split_words,
    starts_str, str_before, take_chars, trim_str,
};
use uwu_wiki::time::Timestamp;

fn single(x: f32) -> F32 {
    F32 { bits: x.to_bits() }
}

#[test]
fn texts_are_searched_and_trimmed() {
    assert!(contains_str("héllo", "éll"));
    assert!(!contains_str("abc", "ac"));
    assert!(contains_str("abc", ""));
    assert!(starts_str("abc", "ab") && !starts_str("abc", "bc"));
    assert!(ends_str("abc", "bc") && !ends_str("c", "bc"));
    assert_eq!(trim_str(" \t a b\u{3000}\n"), "a b");
    assert_eq!(count_str("aaaa", "aa"), Some(2));
    assert_eq!(count_str("abc", ""), Some(4));
    assert_eq!(take_chars("日本語", 2), "日本");
}

#[test]
fn white_space_is_that_of_unicode() {
    for n in 0..=0x10ffffu32 {
        if let Some(c) = char::from_u32(n) {
            assert_eq!(is_white(c), c.is_whitespace(), "{n:x}");
        }
    }
}

#[test]
fn texts_are_split_and_joined() {
    assert_eq!(split_lines("a\r\nb\n\nc"), vec!["a", "b", "", "c"]);
    assert_eq!(split_lines("a\n"), vec!["a"]);
    assert_eq!(split_words("  a \n bc\td "), vec!["a", "bc", "d"]);
    let parts = vec!["x".to_string(), "y".to_string()];
    assert_eq!(join(&parts, ", "), "x, y");
    assert_eq!(join(&vec![], ", "), "");
    assert!(str_before("a", "ab") && str_before("ab", "b") && !str_before("b", "ab"));
}

#[test]
fn numbers_are_shown() {
    assert_eq!(show_u64(0), "0");
    assert_eq!(show_u64(u64::MAX), u64::MAX.to_string());
    assert_eq!(show_i64(-90), "-90");
    assert_eq!(show_i64(i64::MIN), i64::MIN.to_string());
}

#[test]
fn single_numbers_compare_as_ieee() {
    let xs = [f32::NEG_INFINITY, -1.5, -0.0, 0.0, 1e-40, 0.92, f32::INFINITY, f32::NAN];
    for a in xs {
        for b in xs {
            assert_eq!(single(a).less(single(b)), a < b, "{a} < {b}");
            assert_eq!(single(a).at_least(single(b)), a >= b, "{a} >= {b}");
        }
    }
}

#[test]
fn double_numbers_compare_as_ieee() {
    let xs = [f64::NEG_INFINITY, -1.5, -0.0, 0.0, 1e-310, 0.92, f64::INFINITY, f64::NAN];
    for a in xs {
        for b in xs {
            assert_eq!(double_less(a.to_bits(), b.to_bits()), a < b);
            assert_eq!(double_at_most(a.to_bits(), b.to_bits()), a <= b);
            assert_eq!(double_equal(a.to_bits(), b.to_bits()), a == b);
        }
    }
}

#[test]
fn json_is_read_and_written() {
    let text = "{\"a\":[1,-2,0.5,true,null],\"b\":\"q\\\"\\n\"}";
    let v = parse_json(text).unwrap();
    assert_eq!(v.to_text(), text);
    assert_eq!(v.get("a").unwrap().as_array().unwrap().len(), 5);
    assert_eq!(v.get_str("b"), Some("q\"\n"));
    assert!(parse_json("{").is_err());
    assert_eq!(v.extract_text(), "     q\"\n");
    let same = from_outside(serde_json::from_str(text).unwrap());
    assert!(v.same(&same));
}

fn bits(v: &JsonValue) -> u64 {
    match v {
        JsonValue::Number(n) => number_bits(n),
        _ => panic!("no number"),
    }
}

#[test]
fn json_numbers_keep_their_value() {
    for x in [0.1, 0.30000000000000004, -2.5e-300, 1.7976931348623157e308, 5e-324] {
        let v = from_outside(serde_json::Value::from(x));
        assert_eq!(bits(&v), f64::to_bits(x));
    }
    assert_eq!(bits(&parse_json("18446744073709551615").unwrap()), 18446744073709551615f64.to_bits());
    assert_eq!(bits(&parse_json("-3").unwrap()), (-3f64).to_bits());
    let plus = from_outside(serde_json::Value::from(0.0));
    let minus = from_outside(serde_json::Value::from(-0.0));
    assert!(plus.same(&minus));
    assert!(!plus.same(&parse_json("0").unwrap()));
}

#[test]
fn json_objects_merge_by_member() {
    let mut v = parse_json("{\"a\":1,\"c\":3}").unwrap();
    v.merge(&parse_json("{\"b\":2,\"a\":9}").unwrap());
    assert_eq!(v.to_text(), "{\"a\":9,\"b\":2,\"c\":3}");
    v.merge(&parse_json("[1]").unwrap());
    assert_eq!(v.to_text(), "[1]");
    assert_eq!(parse_json("7").unwrap().as_u64(), Some(7));
    assert_eq!(parse_json("-7").unwrap().as_u64(), None);
}

#[test]
fn tables_bind_and_unbind() {
    let mut m: Vec<(String, JsonValue)> = vec![];
    put(&mut m, "k", JsonValue::text("1"));
    put(&mut m, "l", JsonValue::text("2"));
    put(&mut m, "k", JsonValue::text("3"));
    assert_eq!(m.len(), 2);
    assert_eq!(get(&m, "k").unwrap().as_str(), Some("3"));
    assert!(remove(&mut m, "k"));
    assert!(!remove(&mut m, "k"));
    assert!(get(&m, "k").is_none());
}

#[test]
fn times_are_ordered() {
    let a = Timestamp { secs: 1, nanos: 5 };
    let b = Timestamp { secs: 1, nanos: 6 };
    assert!(a.before(b) && !b.before(a) && !a.before(a));
    assert_eq!(b.minus_days(1), Timestamp { secs: 1 - 86_400, nanos: 6 });
}

#[test]
fn errors_have_words() {
    let s = || "x".to_string();
    assert_eq!(WikiError::NotFound(s()).message(), "not found: x");
    assert_eq!(WikiError::Storage(s()).message(), "storage: x");
    assert_eq!(WikiError::PermissionDenied(s()).message(), "permission denied: x");
    assert_eq!(WikiError::VersionConflict(s()).message(), "version conflict: x");
    assert_eq!(WikiError::Serialization(s()).message(), "serialization: x");
    assert_eq!(WikiError::Llm(s()).message(), "llm: x");
    assert_eq!(WikiError::Invalid(s()).message(), "invalid: x");
}
