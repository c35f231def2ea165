use chrono::{DateTime, Datelike, NaiveDate, TimeZone, Utc};
use engramai::temporal_dim::{accept_range, parse_dimension_time, DimParseCache};
use engramai::temporal_grounding::{
    find_phrases, ground_fact, ground_field, ground_spans, ExtractedFact, GroundingResult,
};
use engramai::time::{date_on, days_in_month, Date, TimeRange, Timestamp};
use engramai::time_phrases::is_covered;

fn at(t: DateTime<Utc>) -> Timestamp {
    Timestamp { secs: t.timestamp(), nanos: t.timestamp_subsec_nanos() }
}

fn ts(y: i32, m: u32, d: u32, h: u32) -> Timestamp {
    at(Utc.with_ymd_and_hms(y, m, d, h, 0, 0).unwrap())
}

fn day(y: i32, m: u32, d: u32) -> Timestamp {
    ts(y, m, d, 10)
}

fn date_naive(t: Timestamp) -> NaiveDate {
    DateTime::from_timestamp(t.secs, t.nanos).unwrap().date_naive()
}

// --- the calendar ----------------------------------------------------------

#[test]
fn dates_agree_with_the_calendar_of_chrono() {
    let mut number: i64 = -1_000_000;
    while number < 1_000_000 {
        let ours = date_on(number);
        let theirs = DateTime::from_timestamp(number * 86_400, 0).unwrap().date_naive();
        assert_eq!(ours.year, theirs.year() as i64);
        assert_eq!(ours.month, theirs.month());
        assert_eq!(ours.day, theirs.day());
        assert_eq!(ours.as_text(), theirs.format("%Y-%m-%d").to_string());
        number += 377;
    }
}

#[test]
fn dates_outside_four_digit_years_carry_a_sign() {
    assert_eq!(Date { year: 12_345, month: 6, day: 7 }.as_text(), "+12345-06-07");
    assert_eq!(Date { year: -1, month: 12, day: 31 }.as_text(), "-0001-12-31");
    assert_eq!(Date { year: 0, month: 1, day: 1 }.as_text(), "0000-01-01");
    assert_eq!(Date { year: -262_143, month: 1, day: 1 }.as_text(), "-262143-01-01");
    for (y, m, d) in [(12_345, 6, 7), (-1, 12, 31), (0, 1, 1), (-262_143, 1, 1)] {
        let theirs = NaiveDate::from_ymd_opt(y, m, d).unwrap();
        let ours = Date { year: y as i64, month: m, day: d };
        assert_eq!(ours.as_text(), theirs.format("%Y-%m-%d").to_string());
    }
}

#[test]
fn months_have_their_days() {
    assert_eq!(days_in_month(2024, 2), 29);
    assert_eq!(days_in_month(2023, 2), 28);
    assert_eq!(days_in_month(1900, 2), 28);
    assert_eq!(days_in_month(2000, 2), 29);
    assert_eq!(days_in_month(2023, 4), 30);
    assert_eq!(days_in_month(2023, 12), 31);
}

#[test]
fn moments_before_the_epoch_lie_in_the_day_before() {
    let t = Timestamp { secs: -1, nanos: 0 };
    assert_eq!(t.day(), -1);
    assert_eq!(t.date(), Date { year: 1969, month: 12, day: 31 });
    assert!(t.is_before(Timestamp { secs: -1, nanos: 1 }));
    assert!(!t.is_before(t));
}

// --- resolving a phrase ----------------------------------------------------

#[test]
fn test_parse_yesterday_relative_to_reference() {
    let reference = ts(2024, 1, 10, 12);
    let r = parse_dimension_time("yesterday", reference).expect("'yesterday' must parse");
    // "yesterday" anchored at 2024-01-10 is a range covering 2024-01-09.
    assert_eq!(date_naive(r.start), NaiveDate::from_ymd_opt(2024, 1, 9).unwrap());
    assert!(date_naive(r.end) >= NaiveDate::from_ymd_opt(2024, 1, 9).unwrap());
    assert!(date_naive(r.end) <= NaiveDate::from_ymd_opt(2024, 1, 10).unwrap());
}

#[test]
fn test_parse_absolute_date() {
    let reference = ts(2024, 1, 10, 12);
    let r = parse_dimension_time("May 6, 1968", reference).expect("absolute date must parse");
    assert_eq!(date_naive(r.start), NaiveDate::from_ymd_opt(1968, 5, 6).unwrap());
}

#[test]
fn test_parse_unparseable_returns_none() {
    let reference = ts(2024, 1, 10, 12);
    for phrase in &["", "   ", "@#$%", "kjshdfkjsdhf"] {
        assert!(
            parse_dimension_time(phrase, reference).is_none(),
            "phrase {:?} should be unparseable",
            phrase
        );
    }
}

#[test]
fn test_inverted_range_rejected() {
    let reference = ts(2024, 1, 10, 12);
    if let Some(r) = parse_dimension_time("last Tuesday", reference) {
        assert!(!r.end.is_before(r.start), "start must be <= end");
    }
}

#[test]
fn ranges_in_order_are_accepted_and_inverted_ones_are_not() {
    let range = TimeRange {
        start: Timestamp { secs: 5, nanos: 7 },
        end: Timestamp { secs: 5, nanos: 7 },
    };
    assert_eq!(accept_range(Some(((5, 7), (5, 7)))), Some(range));
    assert_eq!(accept_range(Some(((5, 7), (5, 6)))), None);
    assert_eq!(accept_range(Some(((5, 0), (4, 9)))), None);
    assert_eq!(accept_range(None), None);
}

#[test]
fn yesterday_is_one_whole_day() {
    let r = parse_dimension_time("  Yesterday\n", ts(2024, 1, 10, 12)).unwrap();
    assert_eq!(r, TimeRange { start: ts(2024, 1, 9, 0), end: ts(2024, 1, 10, 0) });
}

#[test]
fn phrases_that_leave_the_calendar_mean_nothing() {
    let reference = ts(2024, 1, 31, 12);
    for phrase in [
        "99999999999 days ago",
        "4294967296 seconds ago",
        "14000000 weeks ago",
        "14000000 weeks from now",
        "2 days after the end",
        "2 days before the beginning",
        "2 days around the end",
        "the beginning to Friday",
        "Friday to the beginning of time",
        "the end to Friday",
        "December to the end",
        "midnight - eternity",
        "this February",
        "monday-last june",
        "R",
        "noon to the beginning",
        "January to the beginning",
        "Tues.to the beginning",
        "3p.m.Sunday - the start",
        "the end to 12/31",
        "23:59:59 to the end",
        "11:59:59 p.m. to the end",
        "December through 30 days before the end",
        "2 days after noon to the end",
        "the beginning to 8 days before Monday",
        "\u{17f}unday",
        "\u{17f}aturday",
        "\u{17f}eptember",
        "the 1\u{17f}t",
        "3 \u{17f}econds ago",
        "la\u{17f}t February",
    ] {
        assert!(parse_dimension_time(phrase, reference).is_none(), "{:?}", phrase);
    }
    assert!(parse_dimension_time("yesterday", Timestamp { secs: i64::MAX, nanos: 0 }).is_none());
    assert!(parse_dimension_time("yesterday", Timestamp { secs: i64::MIN, nanos: 0 }).is_none());
}

#[test]
fn phrases_near_the_edge_are_still_resolved() {
    let reference = ts(2024, 1, 31, 12);
    for phrase in [
        "999999 days ago",
        "1000000 seconds ago",
        "4294967295 seconds ago",
        "13700000 weeks ago",
        "13500000 weeks from now",
        "2 days before the end",
        "2 weeks after the beginning",
        "always",
        "from the beginning to the end",
        "from the beginning to now",
        "from the beginning to this Friday",
        "the beginning to noon",
        "after the beginning",
        "the beginning of time to 5/6/1999",
        "Monday to the end",
        "Friday - the end of time",
        "June through doomsday",
        "Monday to ever after",
        "the fifth to the end",
        "last week until eternity",
        "midnight to the beginning",
        "the end to the end",
        "this March",
        "this Friday",
        "June",
        "the end",
        "ye\u{17f}terday",
        "la\u{17f}t wee\u{212a}",
        "Tue\u{17f}day",
        "3 \u{17f}econds before noon",
        "the \u{17f}econd",
        "since 2 days before the beginning",
        "since 99999999999 days before noon",
        "12 pm to the beginning",
        "12p.m. to the beginning",
        "12:00:30 PM through the beginning",
        "January through the beginning",
        "1:59:59 to the end",
        "11:59:59 to the end",
        "December through 31 days before the end",
        "2 hours after noon to the end",
        "noon to 3 days after the beginning",
        "Monday to 7 days after the beginning",
        "the beginning to 3 hours before noon",
        "the beginning to 2 weeks before June 5",
        "the beginning to 3 days before the fifth",
        "3 days before the end to the end",
        "27000000 weeks before the end",
        "4294967295 seconds before yesterday",
        "4294967295 seconds after Monday",
    ] {
        assert!(parse_dimension_time(phrase, reference).is_some(), "{:?}", phrase);
    }
    let date = Date { year: 2024, month: 1, day: 29 };
    assert!(is_covered("this February", date));
    assert!(!is_covered("this February", Date { year: 2023, month: 1, day: 29 }));
}

#[test]
fn references_reach_over_the_whole_calendar() {
    for secs in [7_000_000_000_000, -8_334_000_000_000, 8_210_266_600_000] {
        let reference = Timestamp { secs, nanos: 0 };
        let day = reference.day() * 86_400;
        let r = parse_dimension_time("yesterday", reference).unwrap();
        assert_eq!((r.start.secs, r.end.secs), (day - 86_400, day));
    }
    for phrase in ["1000000 seconds ago", "two weeks ago", "3 days from now", "last month", "'69"] {
        let reference = Timestamp { secs: 8_100_000_000_000, nanos: 0 };
        assert!(parse_dimension_time(phrase, reference).is_some(), "{:?}", phrase);
    }
}

#[test]
fn days_and_amounts_reach_up_to_the_edges_of_the_calendar() {
    let first: i64 = -8_334_601_228_800;
    let last: i64 = 8_210_266_876_799;
    let resolves = |phrase: &str, secs: i64| {
        parse_dimension_time(phrase, Timestamp { secs, nanos: 0 }).is_some()
    };
    for (phrase, secs) in [
        ("now", first),
        ("now", last - 60),
        ("today", first),
        ("today", last - 86_400),
        ("tomorrow", last - 2 * 86_400),
        ("yesterday", first + 86_400),
        ("yesterday", last - 1),
        ("3 days ago", first + 3 * 86_400),
        ("3 days ago", last),
        ("two weeks from now", last - 3 * 604_801),
        ("5 seconds from now", last - 7),
    ] {
        assert!(resolves(phrase, secs), "{:?} {}", phrase, secs);
    }
    for (phrase, secs) in [
        ("now", first - 1),
        ("now", last),
        ("today", last),
        ("tomorrow", last - 86_400),
        ("yesterday", first + 86_399),
        ("3 days ago", first + 3 * 86_400 - 1),
        ("two weeks from now", last - 2 * 604_800),
        ("5 seconds from now", last - 5),
    ] {
        assert!(!resolves(phrase, secs), "{:?} {}", phrase, secs);
    }
}

#[test]
fn a_reference_that_is_no_moment_resolves_to_nothing() {
    assert!(parse_dimension_time("today", Timestamp { secs: 0, nanos: 4_000_000_000 }).is_none());
}

// --- the cache -------------------------------------------------------------

#[test]
fn test_cache_hits_same_phrase_and_day() {
    let mut cache = DimParseCache::new(16);
    let reference = ts(2024, 1, 10, 12);
    let r1 = cache.get_or_parse("yesterday", reference);
    assert!(r1.is_some());
    assert_eq!(cache.len(), 1);

    let reference2 = ts(2024, 1, 10, 18);
    let r2 = cache.get_or_parse("yesterday", reference2);
    assert_eq!(r1.map(|r| r.start), r2.map(|r| r.start));
    assert_eq!(cache.len(), 1);
}

#[test]
fn test_cache_different_days_different_keys() {
    let mut cache = DimParseCache::new(16);
    let ref1 = ts(2024, 1, 10, 12);
    let ref2 = ts(2024, 1, 11, 12);
    cache.get_or_parse("yesterday", ref1);
    cache.get_or_parse("yesterday", ref2);
    assert_eq!(cache.len(), 2);
}

#[test]
fn test_cache_stores_none() {
    let mut cache = DimParseCache::new(16);
    let reference = ts(2024, 1, 10, 12);
    let r = cache.get_or_parse("kjshdfkjsdhf", reference);
    assert!(r.is_none());
    assert_eq!(cache.len(), 1);

    let r2 = cache.get_or_parse("kjshdfkjsdhf", reference);
    assert!(r2.is_none());
    assert_eq!(cache.len(), 1);
}

#[test]
fn test_cache_capacity_enforces_lru_eviction() {
    let mut cache = DimParseCache::new(2);
    let reference = ts(2024, 1, 10, 12);
    cache.get_or_parse("yesterday", reference);
    cache.get_or_parse("today", reference);
    cache.get_or_parse("tomorrow", reference);
    assert_eq!(cache.len(), 2);
}

#[test]
fn test_empty_and_whitespace_phrases_return_none_without_parsing() {
    let mut cache = DimParseCache::new(16);
    let reference = ts(2024, 1, 10, 12);
    assert!(cache.get_or_parse("", reference).is_none());
    assert!(cache.get_or_parse("   ", reference).is_none());
}

#[test]
fn a_cached_answer_is_that_of_the_first_question_of_the_day() {
    let mut cache = DimParseCache::default();
    assert!(cache.is_empty());
    let morning = ts(2024, 1, 10, 6);
    let evening = ts(2024, 1, 10, 20);
    let first = cache.get_or_parse("now", morning);
    assert_eq!(first, parse_dimension_time("now", morning));
    assert_ne!(first, parse_dimension_time("now", evening));
    assert_eq!(cache.get_or_parse("now", evening), first);
    assert!(!cache.is_empty());
}

#[test]
fn the_entry_used_least_recently_leaves_first() {
    let mut cache = DimParseCache::new(2);
    let morning = ts(2024, 1, 10, 6);
    let evening = ts(2024, 1, 10, 20);
    cache.get_or_parse("now", morning);
    cache.get_or_parse("today", morning);
    // A hit moves "now" to the front, so "today" makes room.
    let kept = cache.get_or_parse("now", evening);
    cache.get_or_parse("tomorrow", morning);
    assert_eq!(cache.get_or_parse("now", evening), kept);
    assert_eq!(kept, parse_dimension_time("now", morning));
    // A phrase that left is resolved anew.
    cache.get_or_parse("today", morning);
    cache.get_or_parse("yesterday", morning);
    assert_eq!(cache.get_or_parse("now", evening), parse_dimension_time("now", evening));
}

#[test]
fn a_cache_without_capacity_holds_one_entry() {
    let mut cache = DimParseCache::new(0);
    let reference = ts(2024, 1, 10, 12);
    cache.get_or_parse("yesterday", reference);
    cache.get_or_parse("today", reference);
    assert_eq!(cache.len(), 1);
}

// --- grounding -------------------------------------------------------------

#[test]
fn iss190_regex_no_longer_matches_unresolvable_month_year_durations() {
    assert!(find_phrases("owned for 3 years ago").is_empty(), "years-ago must not match");
    assert!(find_phrases("2 months ago").is_empty(), "months-ago must not match");
    assert!(!find_phrases("3 days ago").is_empty(), "days-ago must still match");
    assert!(!find_phrases("2 weeks ago").is_empty(), "weeks-ago must still match");
    assert!(!find_phrases("yesterday").is_empty(), "yesterday must still match");
}

#[test]
fn iss190_year_duration_field_is_left_untouched() {
    let mut field = String::from("owned for 3 years");
    let changed = ground_field(&mut field, day(2023, 3, 27));
    assert!(!changed, "year-scale duration must not be touched by grounding");
    assert_eq!(field, "owned for 3 years", "field must be unchanged");
}

#[test]
fn grounds_yesterday_in_core_fact() {
    let mut fact = ExtractedFact {
        core_fact: "user attended support group yesterday".into(),
        ..Default::default()
    };
    let reference = day(2024, 3, 15);
    let r = ground_fact(&mut fact, reference);
    assert_eq!(fact.core_fact, "user attended support group yesterday (2024-03-14)");
    assert!(r.modified);
    assert_eq!(
        r.original_core_fact.as_deref(),
        Some("user attended support group yesterday")
    );
}

#[test]
fn grounds_multiple_phrases_leftmost_first_no_offset_drift() {
    let mut fact = ExtractedFact {
        core_fact: "saw doctor yesterday and gym last week".into(),
        ..Default::default()
    };
    let reference = day(2024, 3, 15);
    let r = ground_fact(&mut fact, reference);
    assert!(r.modified);
    assert!(
        fact.core_fact.starts_with("saw doctor yesterday (2024-03-14) and gym last week ("),
        "got: {}",
        fact.core_fact
    );
    assert!(fact.core_fact.ends_with(")"));
    assert!(fact.core_fact.contains("yesterday (2024-03-14)"));
    assert!(fact.core_fact.contains("last week ("));
}

#[test]
fn idempotent_does_not_double_annotate() {
    let mut fact = ExtractedFact {
        core_fact: "yesterday (2024-03-14) ate sushi".into(),
        ..Default::default()
    };
    let reference = day(2024, 3, 15);
    let r = ground_fact(&mut fact, reference);
    assert_eq!(fact.core_fact, "yesterday (2024-03-14) ate sushi");
    assert!(!r.modified);
    assert!(r.original_core_fact.is_none());
}

#[test]
fn unparseable_phrase_skipped() {
    let mut fact = ExtractedFact {
        core_fact: "the day after the big event".into(),
        ..Default::default()
    };
    let reference = day(2024, 3, 15);
    let r = ground_fact(&mut fact, reference);
    assert_eq!(fact.core_fact, "the day after the big event");
    assert!(!r.modified);
}

#[test]
fn grounds_temporal_and_context_fields_too() {
    let mut fact = ExtractedFact {
        core_fact: "ate pizza".into(),
        temporal: Some("yesterday".into()),
        context: Some("last week we discussed it".into()),
    };
    let reference = day(2024, 3, 15);
    let r = ground_fact(&mut fact, reference);
    assert!(r.modified);
    assert_eq!(fact.temporal.as_deref(), Some("yesterday (2024-03-14)"));
    assert!(
        fact.context.as_deref().unwrap().starts_with("last week ("),
        "got: {:?}",
        fact.context
    );
    assert!(r.original_core_fact.is_none());
    assert_eq!(fact.core_fact, "ate pizza");
}

#[test]
fn handles_empty_optional_fields() {
    let mut fact = ExtractedFact {
        core_fact: "no time refs here".into(),
        temporal: None,
        context: None,
    };
    let reference = day(2024, 3, 15);
    let r = ground_fact(&mut fact, reference);
    assert!(!r.modified);
    assert_eq!(r, GroundingResult::default());
}

#[test]
fn grounding_twice_changes_nothing_more() {
    let mut field = String::from("Yesterday, 3 days ago and last week");
    let reference = day(2024, 3, 15);
    assert!(ground_field(&mut field, reference));
    let once = field.clone();
    assert!(!ground_field(&mut field, day(2025, 1, 1)));
    assert_eq!(field, once);
    assert_eq!(
        once,
        "Yesterday (2024-03-14), 3 days ago (2024-03-12) and last week (2024-03-04)"
    );
}

#[test]
fn phrases_are_found_by_character_behind_wide_characters() {
    let text = "caf\u{e9} \u{1f600} today, not todays";
    assert_eq!(find_phrases(text), vec![(7, 12)]);
    let mut field = String::from(text);
    assert!(ground_field(&mut field, day(2024, 3, 15)));
    assert_eq!(field, "caf\u{e9} \u{1f600} today (2024-03-15), not todays");
}

#[test]
fn an_annotation_must_be_complete_to_count() {
    for tail in [" (2024-03-1)", " (2024-03-14", " 2024-03-14)", " (2024/03/14)", "(2024-03-14)"] {
        let text = format!("today{}", tail);
        let (new, changed) = ground_spans(&text, &vec![(0, 5)], day(2024, 3, 15));
        assert!(changed, "{:?}", tail);
        assert_eq!(new, format!("today (2024-03-15){}", tail));
    }
}

#[test]
fn a_number_of_days_too_long_to_count_is_left_alone() {
    let mut field = String::from("99999999999 days ago");
    assert!(!ground_field(&mut field, day(2024, 3, 15)));
    assert_eq!(field, "99999999999 days ago");
}

#[test]
fn grounding_twice_is_grounding_once() {
    let reference = day(2024, 3, 15);
    let mut fact = ExtractedFact {
        core_fact: "yesterday we met, 3 days ago we called; today (2024-03-15) we rest".into(),
        temporal: Some("last week".into()),
        context: None,
    };
    let first = ground_fact(&mut fact, reference);
    assert!(first.modified);
    assert_eq!(
        fact.core_fact,
        "yesterday (2024-03-14) we met, 3 days ago (2024-03-12) we called; today (2024-03-15) we rest"
    );
    let once = fact.clone();
    let second = ground_fact(&mut fact, reference);
    assert!(!second.modified);
    assert!(second.original_core_fact.is_none());
    assert_eq!(fact, once);
}
