use doorstop_rs::doorstop::level::{key_order, parse_level_key, stripped_len, KeyOrder};
use doorstop_rs::doorstop::text::{has_prefix, has_suffix, same_text, stem_of};
use std::path::Path;
use std::str::FromStr;

/// The key as the standard library's own splitting and parsing give it,
/// once the negative numbers are taken out.
fn plain_key(level: &str) -> Vec<i32> {
    level.split(".").filter_map(|piece| i32::from_str(piece).ok()).filter(|n| *n >= 0).collect()
}

#[test]
fn key_of_plain_levels() {
    assert_eq!(parse_level_key("1"), vec![1]);
    assert_eq!(parse_level_key("2.10"), vec![2, 10]);
    assert_eq!(parse_level_key("2.0"), vec![2, 0]);
    assert_eq!(parse_level_key("2.3.1"), vec![2, 3, 1]);
    assert_eq!(parse_level_key("007.08"), vec![7, 8]);
}

#[test]
fn pieces_that_are_no_integer_are_dropped() {
    assert_eq!(parse_level_key(""), Vec::<i32>::new());
    assert_eq!(parse_level_key("."), Vec::<i32>::new());
    assert_eq!(parse_level_key("a.b"), Vec::<i32>::new());
    assert_eq!(parse_level_key("1..2"), vec![1, 2]);
    assert_eq!(parse_level_key("1.x.2"), vec![1, 2]);
    assert_eq!(parse_level_key("1."), vec![1]);
    assert_eq!(parse_level_key(".1"), vec![1]);
    assert_eq!(parse_level_key("1. 2"), vec![1]);
    assert_eq!(parse_level_key("1.2a"), vec![1]);
    assert_eq!(parse_level_key("+.-.1"), vec![1]);
}

#[test]
fn signs_and_limits() {
    assert_eq!(parse_level_key("+5.-5"), vec![5]);
    assert_eq!(parse_level_key("1.-2.3"), vec![1, 3]);
    assert_eq!(parse_level_key("-0"), vec![0]);
    assert_eq!(parse_level_key("-000.+000"), vec![0, 0]);
    assert_eq!(parse_level_key("2147483647"), vec![2147483647]);
    assert_eq!(parse_level_key("2147483648"), Vec::<i32>::new());
    assert_eq!(parse_level_key("-2147483648"), Vec::<i32>::new());
    assert_eq!(parse_level_key("-2147483649"), Vec::<i32>::new());
    assert_eq!(parse_level_key("-99999999999999999999999999"), Vec::<i32>::new());
    assert_eq!(parse_level_key("99999999999999999999999999.1"), vec![1]);
    assert_eq!(parse_level_key("0000000000000000000000001"), vec![1]);
    assert_eq!(parse_level_key("++1.--1.+-1"), Vec::<i32>::new());
}

#[test]
fn no_segment_is_negative_and_none_is_made_up() {
    let levels = ["", "1", "1.2.3", "-1.-2", "a.b.c", "1..2", "+1.-0.x", "12345678901.1", "...."];
    for level in levels {
        let key = parse_level_key(level);
        assert!(key.iter().all(|n| *n >= 0), "level {:?}", level);
        assert!(key.len() <= level.chars().count(), "level {:?}", level);
    }
}

#[test]
fn key_is_what_splitting_and_parsing_give() {
    let levels = [
        "", ".", "..", "1", "1.0", "2.10", "1.2.3", "a", "1.a.3", "+1", "-1", "+", "-", "+-1",
        "1 .2", " 1", "1\t", "2147483647.2147483648", "-2147483648.-2147483649", "00.01.002",
        "1.٣.2", "１.2", "1,2", "1.2.", ".1.2", "4294967296", "1e3", "0x10", "1_000",
        "18446744073709551616.7", "-", "-.+", "é.1",
    ];
    for level in levels {
        assert_eq!(parse_level_key(level), plain_key(level), "level {:?}", level);
    }
}

#[test]
fn trailing_zeros_are_stripped() {
    assert_eq!(stripped_len(&vec![]), 0);
    assert_eq!(stripped_len(&vec![0]), 0);
    assert_eq!(stripped_len(&vec![0, 0, 0]), 0);
    assert_eq!(stripped_len(&vec![1]), 1);
    assert_eq!(stripped_len(&vec![2, 0]), 1);
    assert_eq!(stripped_len(&vec![2, 0, 1]), 3);
    assert_eq!(stripped_len(&vec![0, 2, 0, 0]), 2);
    assert_eq!(stripped_len(&vec![1, -1]), 2);
}

#[test]
fn keys_are_ordered_as_tuples() {
    assert_eq!(key_order(&vec![2, 0], &vec![2, 1]), KeyOrder::Before);
    assert_eq!(key_order(&vec![2], &vec![2, 0]), KeyOrder::Before);
    assert_eq!(key_order(&vec![2, 1], &vec![2, 1]), KeyOrder::Same);
    assert_eq!(key_order(&vec![], &vec![]), KeyOrder::Same);
    assert_eq!(key_order(&vec![], &vec![0]), KeyOrder::Before);
    assert_eq!(key_order(&vec![3], &vec![2, 9, 9]), KeyOrder::After);
    assert_eq!(key_order(&vec![1, 10], &vec![1, 2]), KeyOrder::After);
    assert_eq!(key_order(&vec![-1], &vec![0]), KeyOrder::Before);
}

#[test]
fn key_order_is_the_order_of_vectors() {
    let keys: Vec<Vec<i32>> = vec![
        vec![],
        vec![0],
        vec![1],
        vec![1, 0],
        vec![1, 1],
        vec![1, 1, 0],
        vec![2],
        vec![2, 0],
        vec![2, 1],
        vec![10],
        vec![-3, 5],
        vec![i32::MAX],
        vec![i32::MIN],
    ];
    for a in &keys {
        for b in &keys {
            let expected = if a < b {
                KeyOrder::Before
            } else if a == b {
                KeyOrder::Same
            } else {
                KeyOrder::After
            };
            assert_eq!(key_order(a, b), expected, "{:?} and {:?}", a, b);
        }
    }
}

#[test]
fn stem_is_what_stands_before_the_last_dot() {
    assert_eq!(stem_of("REQ004.yml"), "REQ004");
    assert_eq!(stem_of(".doorstop.yml"), ".doorstop");
    assert_eq!(stem_of("README"), "README");
    assert_eq!(stem_of(".hidden"), ".hidden");
    assert_eq!(stem_of("a.tar.gz"), "a.tar");
    assert_eq!(stem_of("trailing."), "trailing");
    assert_eq!(stem_of(""), "");
    assert_eq!(stem_of("é.yml"), "é");
}

#[test]
fn stem_is_the_stem_of_the_path() {
    let names = ["REQ004.yml", ".doorstop.yml", "README", ".hidden", "a.tar.gz", "x.", "a.b.c.d", "é.ü.yml"];
    for name in names {
        let expected = Path::new(name).file_stem().unwrap().to_str().unwrap();
        assert_eq!(stem_of(name), expected, "name {:?}", name);
    }
}

#[test]
fn texts_are_compared_by_their_characters() {
    assert!(same_text("", ""));
    assert!(same_text(".doorstop.yml", ".doorstop.yml"));
    assert!(!same_text(".doorstop.yml", ".doorstop.yaml"));
    assert!(!same_text("a", "ab"));
    assert!(has_prefix("REQ001.yml", "REQ"));
    assert!(has_prefix("REQ001.yml", ""));
    assert!(has_prefix("REQ", "REQ"));
    assert!(!has_prefix("RE", "REQ"));
    assert!(!has_prefix("XREQ", "REQ"));
    assert!(has_suffix("REQ001.yml", ".yml"));
    assert!(has_suffix(".yml", ".yml"));
    assert!(has_suffix("abc", ""));
    assert!(!has_suffix("yml", ".yml"));
    assert!(!has_suffix("REQ001.yml.bak", ".yml"));
    assert!(has_suffix("né.yml", ".yml"));
    assert!(has_prefix("éa", "é"));
}
