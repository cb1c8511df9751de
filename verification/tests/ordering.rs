use std::cmp::Ordering;

use fastnode::error::Error;
use fastnode::index::value::number_key;
use fastnode::json::{Json, Number};
use fastnode::model::predicate::SortDirection;
use fastnode::query::bounds::{
    interval_keys, number_bounds, prefix_range, string_bounds, Compare, IntervalOp, TokenBound,
};
use fastnode::query::cursor::{decode, encode, token};
use fastnode::query::order::{before_cursor, resume_in, sections, sort_keys, Collector};
use fastnode::query::order_key::{compare, position, sorts_after, Key, MISSING, NUMBER, STRING};
use fastnode::query::postings::{prefix_end, string_token};
use fastnode::query::range::{kind, RangeKind};
use roaring::RoaringBitmap;

fn nkey(lit: &str, id: u32) -> Key {
    Key { rank: NUMBER, bytes: number_key(&Number { literal: lit.to_string() }).unwrap(), id }
}

fn skey(text: &str, id: u32) -> Key {
    Key { rank: STRING, bytes: text.as_bytes().to_vec(), id }
}

fn missing(id: u32) -> Key {
    Key { rank: MISSING, bytes: vec![], id }
}

fn n(s: &str) -> Json {
    Json::Number(Number { literal: s.to_string() })
}

fn s(t: &str) -> Json {
    Json::Str(t.to_string())
}

#[test]
fn cursor_text_is_rank_hex_id() {
    assert_eq!(encode(&skey("ab", 7)), "1.6162.7");
    assert_eq!(encode(&missing(42)), "2..42");
    assert_eq!(encode(&Key { rank: 0, bytes: vec![1], id: 0 }), "0.01.0");
}

#[test]
fn decode_reads_what_encode_wrote() {
    for k in [nkey("-3.5", 1), nkey("0", 2), skey("Zürich", 3), skey("", u32::MAX), missing(9)] {
        assert_eq!(decode(&encode(&k)), Ok(k));
    }
}

#[test]
fn decode_refuses_what_encode_never_writes() {
    for bad in ["", "1.61", "1.61.2.3", "3..1", "256..1", "1.6.1", "1.zz.1", "1..4294967296", "x.00.1", "1.ff.1"] {
        assert_eq!(decode(bad), Err(Error::InvalidCursor), "{bad}");
    }
    // a leading plus is read as str::parse reads it
    assert_eq!(decode("+2..+5"), Ok(missing(5)));
}

#[test]
fn key_tokens() {
    assert_eq!(token(&skey("abc", 1)), Ok("s:abc".to_string()));
    assert_eq!(token(&Key { rank: NUMBER, bytes: vec![1], id: 1 }), Ok("n:01".to_string()));
    assert_eq!(token(&Key { rank: STRING, bytes: vec![0xff], id: 1 }), Err(Error::NotUtf8));
}

#[test]
fn numbers_before_strings_ascending_missing_last() {
    assert_eq!(position(NUMBER, SortDirection::Asc), 0);
    assert_eq!(position(STRING, SortDirection::Asc), 1);
    assert_eq!(position(NUMBER, SortDirection::Desc), 1);
    assert_eq!(position(STRING, SortDirection::Desc), 0);
    assert_eq!(position(MISSING, SortDirection::Asc), 2);
    assert_eq!(position(MISSING, SortDirection::Desc), 2);
    assert_eq!(sections(SortDirection::Asc), [NUMBER, STRING, MISSING]);
    assert_eq!(sections(SortDirection::Desc), [STRING, NUMBER, MISSING]);
}

#[test]
fn compare_orders_by_kind_value_then_id() {
    let a = nkey("2", 5);
    let b = nkey("10", 1);
    assert_eq!(compare(&a, &b, SortDirection::Asc), Ordering::Less);
    assert_eq!(compare(&a, &b, SortDirection::Desc), Ordering::Greater);
    assert_eq!(compare(&nkey("1", 1), &skey("a", 0), SortDirection::Asc), Ordering::Less);
    assert_eq!(compare(&nkey("1", 1), &skey("a", 0), SortDirection::Desc), Ordering::Greater);
    assert_eq!(compare(&missing(1), &skey("a", 9), SortDirection::Desc), Ordering::Greater);
    assert_eq!(compare(&missing(1), &nkey("1", 9), SortDirection::Asc), Ordering::Greater);
    // values tie on id, reversed with the values when descending
    assert_eq!(compare(&skey("a", 1), &skey("a", 2), SortDirection::Asc), Ordering::Less);
    assert_eq!(compare(&skey("a", 1), &skey("a", 2), SortDirection::Desc), Ordering::Greater);
    // Nodes without a value stay in ascending id order
    assert_eq!(compare(&missing(3), &missing(2), SortDirection::Desc), Ordering::Greater);
    assert_eq!(compare(&skey("a", 1), &skey("a", 1), SortDirection::Desc), Ordering::Equal);
    assert!(sorts_after(&b, &a, SortDirection::Asc));
    assert!(!sorts_after(&a, &a, SortDirection::Asc));
}

#[test]
fn compare_is_antisymmetric_on_samples() {
    let keys = [nkey("-1", 4), nkey("1.5", 2), skey("b", 1), skey("ab", 3), missing(0), missing(8)];
    for d in [SortDirection::Asc, SortDirection::Desc] {
        for x in &keys {
            for y in &keys {
                assert_eq!(compare(x, y, d), compare(y, x, d).reverse());
            }
        }
    }
}

#[test]
fn sort_keys_sorts_and_keeps_every_key() {
    let keys = vec![missing(2), skey("b", 1), nkey("10", 3), nkey("9", 4), skey("a", 5), missing(1)];
    let asc = sort_keys(keys.clone(), SortDirection::Asc);
    let ids: Vec<u32> = asc.iter().map(|k| k.id).collect();
    assert_eq!(ids, vec![4, 3, 5, 1, 1, 2]);
    let desc = sort_keys(keys.clone(), SortDirection::Desc);
    let ids: Vec<u32> = desc.iter().map(|k| k.id).collect();
    assert_eq!(ids, vec![1, 5, 3, 4, 1, 2]);
    assert_eq!(sort_keys(vec![], SortDirection::Asc), vec![]);
}

#[test]
fn collector_pages_after_the_cursor() {
    let set: RoaringBitmap = [1u32, 2, 3, 5].into_iter().collect();
    let stream = [nkey("1", 1), nkey("2", 4), nkey("3", 2), nkey("4", 3), nkey("5", 5)];
    let mut c = Collector::new(None, SortDirection::Asc, 2);
    for k in &stream {
        if c.full() {
            break;
        }
        c.offer(k.clone(), &set);
    }
    let (ids, cursor) = c.finish(2);
    assert_eq!(ids, vec![1, 2]);
    let cursor = cursor.unwrap();
    assert_eq!(cursor, encode(&nkey("3", 2)));
    // next page resumes after the cursor
    let after = decode(&cursor).unwrap();
    let mut c = Collector::new(Some(after), SortDirection::Asc, 2);
    for k in &stream {
        c.offer(k.clone(), &set);
    }
    let (ids, cursor) = c.finish(2);
    assert_eq!(ids, vec![3, 5]);
    assert_eq!(cursor, None);
}

#[test]
fn collector_with_limit_zero_returns_nothing() {
    let set: RoaringBitmap = [1u32].into_iter().collect();
    let mut c = Collector::new(None, SortDirection::Asc, 0);
    assert_eq!(c.want, 1);
    c.offer(nkey("1", 1), &set);
    assert!(c.full());
    assert_eq!(c.finish(0), (vec![], None));
}

#[test]
fn cursor_sections() {
    let after = Some(skey("m", 1));
    // ascending: numbers come before a string cursor, so their section is skipped
    assert!(before_cursor(NUMBER, &after, SortDirection::Asc));
    assert!(!before_cursor(STRING, &after, SortDirection::Asc));
    assert!(!before_cursor(MISSING, &after, SortDirection::Asc));
    assert!(!before_cursor(NUMBER, &after, SortDirection::Desc));
    assert!(!before_cursor(NUMBER, &None, SortDirection::Asc));
    assert_eq!(resume_in(STRING, &after), after.as_ref());
    assert_eq!(resume_in(NUMBER, &after), None);
}

#[test]
fn prefix_end_is_the_first_string_past_the_prefix() {
    assert_eq!(prefix_end("s:ab"), "s:ac");
    assert_eq!(prefix_end("s:a\u{10FFFF}"), "s:b");
    assert_eq!(prefix_end("s:\u{D7FF}"), "s:\u{E000}");
    assert_eq!(prefix_range("ab"), ("s:ab".to_string(), "s:ac".to_string()));
    assert_eq!(prefix_range(""), ("s:".to_string(), "s;".to_string()));
    assert_eq!(string_token("x y"), "s:x y");
}

#[test]
fn prefix_range_covers_exactly_the_prefixed_tokens() {
    let (lo, hi) = prefix_range("ab");
    for t in ["s:ab", "s:abc", "s:ab\u{10FFFF}"] {
        assert!(lo.as_str() <= t && t < hi.as_str(), "{t}");
    }
    for t in ["s:aa", "s:ac", "s:b", "s:a"] {
        assert!(!(lo.as_str() <= t && t < hi.as_str()), "{t}");
    }
}

#[test]
fn string_range_bounds() {
    let (lo, hi) = string_bounds(&Some(s("a")), &None, &None, &Some(s("m")));
    assert_eq!(lo, TokenBound::Excluded("s:a".to_string()));
    assert_eq!(hi, TokenBound::Included("s:m".to_string()));
    let (lo, hi) = string_bounds(&None, &None, &None, &None);
    assert_eq!(lo, TokenBound::Included("s:".to_string()));
    assert_eq!(hi, TokenBound::Excluded("s;".to_string()));
}

#[test]
fn number_range_bounds() {
    let b = number_bounds(&None, &Some(n("1")), &Some(n("10")), &None);
    let k1 = number_key(&Number { literal: "1".into() }).unwrap();
    let k10 = number_key(&Number { literal: "10".into() }).unwrap();
    assert_eq!(b, vec![(Compare::AtLeast, k1), (Compare::Below, k10)]);
    assert_eq!(number_bounds(&None, &None, &None, &None), vec![]);
}

#[test]
fn range_kinds() {
    assert_eq!(kind([&None, &None, &None, &None]), Ok(RangeKind::Number));
    assert_eq!(kind([&Some(n("1")), &None, &None, &Some(n("2"))]), Ok(RangeKind::Number));
    assert_eq!(kind([&None, &Some(s("a")), &None, &None]), Ok(RangeKind::Text));
    assert_eq!(kind([&Some(n("1")), &None, &Some(s("b")), &None]), Err(Error::RangeMixedTypes));
    assert_eq!(kind([&Some(Json::Bool(true)), &None, &None, &None]), Err(Error::RangeBoundType));
    assert_eq!(kind([&None, &None, &Some(Json::Null), &None]), Err(Error::RangeBoundType));
    assert_eq!(
        kind([&Some(n("1e9223372036854775807")), &None, &None, &None]),
        Err(Error::ExponentOutOfRange)
    );
}

#[test]
fn interval_conditions() {
    assert_eq!(IntervalOp::Contains.condition(), "lo<=?2 AND hi>=?3");
    assert_eq!(IntervalOp::Overlap.reach_is_end(), Some(false));
    assert_eq!(IntervalOp::Contains.reach_is_end(), Some(true));
    assert_eq!(IntervalOp::ContainedBy.reach_is_end(), None);
    let (a, b) = interval_keys(&Number { literal: "1".into() }, &Number { literal: "2".into() }).unwrap();
    assert!(a < b);
    assert_eq!(
        interval_keys(&Number { literal: "1".into() }, &Number { literal: "1e9223372036854775807".into() }),
        Err(Error::ExponentOutOfRange)
    );
}
