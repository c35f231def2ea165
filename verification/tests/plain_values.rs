use engramai::hashing::hex_text;
use engramai::json::{bool_value, element_at, find, optional_value, read_nullable, read_text, strings_value};
use engramai::ranking::order_by;
use engramai::score::Score;
use engramai::substrate::spot_check::blake_short;
use engramai::synthesis::cluster::{build_memory_cluster, summarize_signals};
use engramai::text::{
    all_but, byte_count, contains, i64_text, join, less, locate, same_lowered, sort, sort_dedup,
    split_pieces, strip_prefix, strip_suffix, u64_text, unfence, white_space,
};
use engramai::time::{date_on, days_in_month, Timestamp};
use std::collections::hash_map::DefaultHasher;
use std::hash::{Hash, Hasher};

fn score(x: f64) -> Score {
    Score { bits: x.to_bits() }
}

fn texts(items: &[&str]) -> Vec<String> {
    items.iter().map(|s| s.to_string()).collect()
}

#[test]
fn scores_compare_as_doubles_do() {
    let values = [
        f64::NEG_INFINITY,
        -1.5,
        -f64::MIN_POSITIVE,
        -0.0,
        0.0,
        f64::MIN_POSITIVE,
        0.1,
        1.0,
        f64::MAX,
        f64::INFINITY,
        f64::NAN,
    ];
    for a in values {
        assert_eq!(score(a).is_nan(), a.is_nan());
        for b in values {
            assert_eq!(score(a).lt(&score(b)), a < b);
            assert_eq!(score(a).ge(&score(b)), a >= b);
            if !a.is_nan() && !b.is_nan() {
                assert_eq!(score(a).ascending() < score(b).ascending(), a < b);
                assert_eq!(score(a).descending() < score(b).descending(), a > b);
            }
        }
    }
}

#[test]
fn clamping_keeps_what_is_between() {
    let at = |x: f64| f64::from_bits(score(x).clamp(score(0.0), score(1.0)).bits);
    assert_eq!(at(-0.5), 0.0);
    assert_eq!(at(0.5), 0.5);
    assert_eq!(at(1.5), 1.0);
    assert!(at(f64::NAN).is_nan());
}

#[test]
fn orders_are_stable_and_go_by_both_keys() {
    assert_eq!(order_by(&vec![3, 1, 2], &vec![0, 0, 0]), vec![1, 2, 0]);
    assert_eq!(order_by(&vec![1, 1, 1], &vec![5, 5, 5]), vec![0, 1, 2]);
    assert_eq!(order_by(&vec![1, 0, 1, 0], &vec![2, 9, 1, -9]), vec![3, 1, 2, 0]);
    assert!(order_by(&vec![], &vec![]).is_empty());
}

#[test]
fn hex_has_the_places_asked_for() {
    assert_eq!(hex_text(0xab, 4), "00ab");
    assert_eq!(hex_text(0xdeadbeef, 8), "deadbeef");
    assert_eq!(hex_text(u64::MAX, 16), "ffffffffffffffff");
    assert_eq!(hex_text(0x12345, 2), "45");
}

#[test]
fn cluster_ids_hash_the_sorted_members() {
    let members = texts(&["m2", "m1"]);
    let signals = summarize_signals(score(1.0), score(0.0), score(0.0), score(0.0));
    let cluster =
        build_memory_cluster(&members, &vec![None, None], score(0.5), signals, 1).unwrap();
    let sorted = texts(&["m1", "m2"]);
    let mut h = DefaultHasher::new();
    sorted.hash(&mut h);
    assert_eq!(cluster.id, format!("cluster-{:016x}", h.finish()));
}

#[test]
fn fingerprints_hash_the_bytes() {
    let bytes: [u8; 5] = [1, 2, 3, 254, 255];
    let mut h = DefaultHasher::new();
    bytes[..].hash(&mut h);
    assert_eq!(blake_short(&bytes), h.finish().to_le_bytes());
    assert_ne!(blake_short(&bytes), blake_short(&bytes[..4]));
}

#[test]
fn numbers_are_printed_in_decimal() {
    for n in [0_u64, 7, 10, 999, u64::MAX] {
        assert_eq!(u64_text(n), n.to_string());
    }
    for n in [0_i64, -1, 42, i64::MIN, i64::MAX] {
        assert_eq!(i64_text(n), n.to_string());
    }
}

#[test]
fn texts_sort_by_scalar_value() {
    assert_eq!(sort(texts(&["b", "a", "b", "B"])), texts(&["B", "a", "b", "b"]));
    assert_eq!(sort_dedup(texts(&["b", "a", "b"])), texts(&["a", "b"]));
    for (a, b) in [("", "a"), ("a", "b"), ("a", "ab"), ("é", "z"), ("\u{ffff}", "\u{10000}")] {
        assert_eq!(less(a, b), a < b);
        assert_eq!(less(b, a), b < a);
        assert!(!less(a, a));
    }
    let sorted = texts(&["a", "c", "e"]);
    assert_eq!(locate(&sorted, "c"), Some(1));
    assert_eq!(locate(&sorted, "b"), None);
    assert_eq!(locate(&sorted, "z"), None);
}

#[test]
fn texts_are_cut_and_joined() {
    assert_eq!(join(&texts(&["a", "b", "c"]), ", "), "a, b, c");
    assert_eq!(join(&texts(&[]), ", "), "");
    assert!(contains("abcd", "bc") && contains("abcd", "") && !contains("abcd", "bd"));
    assert_eq!(strip_prefix("abcd", "ab"), Some("cd"));
    assert_eq!(strip_prefix("abcd", "b"), None);
    assert_eq!(strip_suffix("abcd", "cd"), Some("ab"));
    assert_eq!(strip_suffix("abcd", "c"), None);
    assert_eq!(split_pieces("a,,b,", ','), texts(&["a", "b"]));
    assert_eq!(all_but(&texts(&["a", "b", "a"]), "a"), texts(&["b"]));
    assert_eq!(byte_count("aé€"), 6);
    assert!(same_lowered("HeLLo", "hello"));
    assert!(!same_lowered("HÉ", "hé"));
}

#[test]
fn fences_are_taken_off() {
    assert_eq!(unfence("  ```json\n[1]\n```  "), "[1]");
    assert_eq!(unfence("```\n[1]\n```"), "[1]");
    assert_eq!(unfence(" [1] "), "[1]");
}

#[test]
fn white_space_is_what_the_standard_says() {
    for code in 0..0x3100_u32 {
        if let Some(c) = char::from_u32(code) {
            assert_eq!(white_space(c), c.is_whitespace());
        }
    }
}

#[test]
fn json_values_are_printed_and_read() {
    assert_eq!(bool_value(true), "true");
    assert_eq!(bool_value(false), "false");
    assert_eq!(strings_value(&texts(&["a", "q\"uote", "é\n"])), "[\"a\",\"q\\\"uote\",\"é\\n\"]");
    assert_eq!(optional_value(&None), "null");
    assert_eq!(optional_value(&Some("x".to_string())), "\"x\"");
    let entries = vec![
        ("a".to_string(), "\"x\"".to_string()),
        ("b".to_string(), "null".to_string()),
        ("c".to_string(), "3".to_string()),
    ];
    assert_eq!(find(&entries, "b"), Some("null".to_string()));
    assert_eq!(find(&entries, "z"), None);
    assert_eq!(read_text(find(&entries, "a")), Some("x".to_string()));
    assert_eq!(read_text(find(&entries, "c")), None);
    assert_eq!(read_text(None), None);
    assert_eq!(read_nullable(find(&entries, "a")), Some(Some("x".to_string())));
    assert_eq!(read_nullable(find(&entries, "b")), Some(None));
    assert_eq!(read_nullable(None), Some(None));
    assert_eq!(read_nullable(find(&entries, "c")), None);
    assert_eq!(element_at(&texts(&["1", "2"]), 1), Some("2".to_string()));
    assert_eq!(element_at(&texts(&["1", "2"]), 2), None);
}

#[test]
fn days_have_dates() {
    assert_eq!(date_on(0).as_text(), "1970-01-01");
    assert_eq!(date_on(-1).as_text(), "1969-12-31");
    assert_eq!(date_on(19_782).as_text(), "2024-02-29");
    assert_eq!(days_in_month(2023, 2), 28);
    assert_eq!(days_in_month(2000, 2), 29);
    assert_eq!(days_in_month(1900, 2), 28);
    let t = Timestamp { secs: 86_399, nanos: 999_999_999 };
    assert_eq!(t.day(), 0);
    assert_eq!(Timestamp { secs: -1, nanos: 0 }.day(), -1);
    assert_eq!(t.date().as_text(), "1970-01-01");
    assert!(t.is_before(Timestamp { secs: 86_400, nanos: 0 }));
    assert!(Timestamp { secs: 5, nanos: 1 }.is_before(Timestamp { secs: 5, nanos: 2 }));
    assert!(!t.is_before(t));
}
