use pir_core::apm::html::{bytes_human, escape, time, time_or_seconds};
use pir_core::apm::number::{equals, is_finite_positive, less_than, number_text, parse_whole};
use pir_core::bytemap::{same_bytes, ByteMap};
use pir_core::codec::{copy_range, pad_zeros, push_le, read_le};
use pir_core::enhance::answer::TableEngine;
use pir_core::enhance::types::DatabaseId;
use pir_core::layout::DatabaseLayout;
use pir_core::names::{NameMap, NameSet};
use pir_core::numbers::{div_ceil, next_power_of_two};
use pir_core::pir_types::YpirScenario;
use pir_core::text::{
    ascending_place, contains_text, cut_prefix, cut_suffix, precedes, push_decimal, push_signed,
    split_at_each, split_once_at, trim_end_of, trim_text,
};
use pir_core::witness::client::IpirClientState;

#[test]
fn times_are_shown_in_utc() {
    assert_eq!(time(0), "1970-01-01T00:00:00+00:00");
    assert_eq!(time(1_787_875_200), "2026-08-28T00:00:00+00:00");
    assert_eq!(time_or_seconds(None, 77), "77");
    // Beyond the calendar.
    assert_eq!(time(u64::MAX / 2), (u64::MAX / 2).to_string());
}

#[test]
fn sizes_are_shown_with_their_unit() {
    assert_eq!(bytes_human(0), "0.0 MiB");
    assert_eq!(bytes_human(1024 * 1024), "1.0 MiB");
    assert_eq!(bytes_human(1024 * 1024 * 1024), "1.00 GiB");
    assert_eq!(bytes_human(3 * 1024 * 1024 * 1024 / 2), "1.50 GiB");
}

#[test]
fn escaped_text_holds_no_markup() {
    assert_eq!(
        escape("<a href=\"x\">&'b'</a>"),
        "&lt;a href=&quot;x&quot;&gt;&amp;&#39;b&#39;&lt;/a&gt;"
    );
    assert_eq!(escape("plain"), "plain");
}

#[test]
fn an_unknown_table_is_named_in_quotes() {
    let error = DatabaseId::from_name("a\"b").unwrap_err();
    assert_eq!(error, "unknown PIR database: \"a\\\"b\"");
    assert_eq!(DatabaseId::from_name("enhance"), Ok(DatabaseId::Enhance));
}

#[test]
fn engine_errors_are_put_into_words() {
    let layout = DatabaseLayout {
        record_bytes: 1,
        records_per_row: 1,
        shard_rows: 1,
    };
    let error = TableEngine::new(1, &layout).err().unwrap();
    assert!(error.contains("at least one polynomial"), "{error}");
}

#[test]
fn a_response_decodes_to_a_row_of_the_table() {
    let client = IpirClientState::new(&YpirScenario {
        num_items: 2_048,
        item_size_bits: 28_672,
    })
    .unwrap();
    let (_, seed) = client.generate_ipir_query(0).unwrap();
    let published = vec![0u8; 14_336];
    let row = client.decode_ipir_response(&seed, &published, &[0; 5_120]);
    assert_eq!(row.len(), 3_584);
    let other = client.decode_ipir_response(&seed, &published, &[0x77; 5_120]);
    assert_ne!(row, other);
}

#[test]
fn binary64_patterns_are_ordered_as_numbers() {
    let bits = |value: f64| value.to_bits();
    let values = [f64::NEG_INFINITY, -2.5, -0.0, 0.0, 1e-300, 3.0, f64::INFINITY];
    for a in values {
        for b in values {
            assert_eq!(less_than(bits(a), bits(b)), a < b, "{a} {b}");
            assert_eq!(equals(bits(a), bits(b)), a == b, "{a} {b}");
        }
        assert!(!less_than(bits(a), bits(f64::NAN)));
        assert!(!equals(bits(f64::NAN), bits(a)));
        assert_eq!(is_finite_positive(bits(a)), a.is_finite() && a > 0.0);
    }
}

#[test]
fn texts_of_numbers_are_told_apart() {
    for text in ["1", "-1", "+1.5", ".5", "5.", "1e9", "1.5E-3", "inf", "-Infinity", "NaN", "+nan"]
    {
        assert!(number_text(text), "{text}");
        assert!(text.parse::<f64>().is_ok(), "{text}");
    }
    for text in ["", ".", "1e", "e5", "1 ", "--1", "0x1", "infin", "1_000"] {
        assert!(!number_text(text), "{text}");
        assert!(text.parse::<f64>().is_err(), "{text}");
    }
    assert_eq!(parse_whole("0042"), Some(42));
    assert_eq!(parse_whole("18446744073709551615"), Some(u64::MAX));
    assert_eq!(parse_whole("18446744073709551616"), None);
    assert_eq!(parse_whole("-1"), None);
    assert_eq!(parse_whole(""), None);
}

#[test]
fn a_byte_map_holds_the_last_value_of_a_key() {
    let mut map = ByteMap::new();
    for n in 0..300u64 {
        map.insert(n.to_le_bytes().to_vec(), n);
    }
    map.insert(7u64.to_le_bytes().to_vec(), 70);
    assert_eq!(map.len(), 300);
    assert_eq!(map.get(&7u64.to_le_bytes()), Some(&70));
    map.remove(&7u64.to_le_bytes());
    map.remove(b"absent");
    assert_eq!(map.len(), 299);
    assert_eq!(map.get(&7u64.to_le_bytes()), None);
    assert_eq!(map.get(&8u64.to_le_bytes()), Some(&8));
    assert!(same_bytes(b"ab", b"ab"));
    assert!(!same_bytes(b"ab", b"abc"));
}

#[test]
fn names_are_kept_in_order() {
    let mut map = NameMap::new();
    for name in ["b", "a", "c", "a"] {
        map.insert(name.to_string(), name.len() + map.len());
    }
    assert_eq!(map.len(), 3);
    assert_eq!(
        (map.name_at(0), map.name_at(1), map.name_at(2)),
        ("a", "b", "c")
    );
    assert_eq!(map.get("a"), Some(&4));
    assert_eq!(map.get("d"), None);
    let set = NameSet::from_list(&vec!["x".to_string(), "x".to_string()]);
    assert_eq!(set.len(), 1);
    assert!(set.contains("x"));
    assert!(!set.contains("y"));
    let names = vec!["a".to_string(), "c".to_string()];
    assert_eq!(ascending_place(&names, "b"), 1);
    assert!(precedes("a", "ab"));
    assert!(!precedes("b", "ab"));
    assert!(!precedes("a", "a"));
}

#[test]
fn numbers_are_written_low_byte_first() {
    let mut bytes = Vec::new();
    push_le(&mut bytes, 0x0102_0304, 4);
    assert_eq!(bytes, vec![4, 3, 2, 1]);
    assert_eq!(read_le(&bytes, 0, 4), 0x0102_0304);
    assert_eq!(read_le(&bytes, 1, 2), 0x0203);
    pad_zeros(&mut bytes, 6);
    assert_eq!(bytes, vec![4, 3, 2, 1, 0, 0]);
    assert_eq!(copy_range(&bytes, 1, 3), vec![3, 2]);
    assert_eq!(div_ceil(7, 2), 4);
    assert_eq!(div_ceil(8, 2), 4);
    assert_eq!(next_power_of_two(5), 8);
    assert_eq!(next_power_of_two(8), 8);
    let mut text = String::from("n=");
    push_decimal(&mut text, 1_234);
    text.push(' ');
    push_signed(&mut text, -56);
    assert_eq!(text, "n=1234 -56");
}

#[test]
fn texts_are_cut_and_trimmed() {
    assert_eq!(
        split_once_at("a=b=c", '='),
        Some(("a".to_string(), "b=c".to_string()))
    );
    assert_eq!(split_once_at("abc", '='), None);
    assert_eq!(split_at_each("a,,b", ','), vec!["a", "", "b"]);
    assert_eq!(trim_text(" \t a b\n"), "a b");
    assert_eq!(trim_end_of("http://h//", '/'), "http://h");
    assert_eq!(cut_prefix("prefix_rest", "prefix_"), Some("rest".to_string()));
    assert_eq!(cut_prefix("x", "xy"), None);
    assert_eq!(cut_suffix("age_seconds", "_seconds"), Some("age".to_string()));
    assert!(contains_text("haystack", "st"));
    assert!(!contains_text("haystack", "ts"));
    assert!(contains_text("haystack", ""));
}
