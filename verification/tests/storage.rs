use redis_lite::storage::key_val::{KVBucket, KVObject};
use redis_lite::storage::list::{lrange_bounds, ListBucket};
use redis_lite::storage::stream::{StreamBucket, StreamEntry, StreamError};
use redis_lite::storage::stream_id::{id_at_most, StreamId};
use redis_lite::storage::Storage;
use redis_lite::text::NumberError;

fn s(t: &str) -> String {
    t.to_string()
}

fn strings(ts: &[&str]) -> Vec<String> {
    ts.iter().map(|t| t.to_string()).collect()
}

#[test]
fn kv_value_without_expiry_lives_for_ever() {
    let mut b = KVBucket::new();
    b.set(s("k"), s("v"), 0, 1_000);
    assert!(b.contains_key("k"));
    assert_eq!(b.get("k", u128::MAX), Some(s("v")));
}

#[test]
fn kv_value_expires_after_its_time_to_live() {
    let mut b = KVBucket::new();
    b.set(s("k"), s("v"), 100, 1_000);
    assert_eq!(b.get("k", 1_050), Some(s("v")));
    assert_eq!(b.get("k", 1_100), Some(s("v")));
    assert_eq!(b.get("k", 1_101), None);
    assert!(!b.contains_key("k"));
    assert_eq!(b.get("k", 0), None);
}

#[test]
fn kv_set_replaces_and_del_removes() {
    let mut b = KVBucket::new();
    b.set(s("k"), s("a"), 0, 0);
    b.set(s("k"), s("b"), 0, 0);
    assert_eq!(b.get("k", 5), Some(s("b")));
    assert_eq!(b.del("k"), Some(s("b")));
    assert_eq!(b.del("k"), None);
    assert_eq!(b.get("k", 5), None);
}

#[test]
fn kv_object_fields() {
    let o = KVObject { value: s("x"), expired_at: 7 };
    let c = o.clone();
    assert_eq!(c.value, "x");
    assert_eq!(c.expired_at, 7);
}

#[test]
fn lpush_puts_values_in_front_in_reverse() {
    let mut b = ListBucket::new();
    assert_eq!(b.lpush(s("l"), strings(&["a", "b"])), 2);
    assert_eq!(b.lpush(s("l"), strings(&["c"])), 3);
    assert_eq!(b.range("l", 0, -1), strings(&["c", "b", "a"]));
}

#[test]
fn rpush_appends_in_order() {
    let mut b = ListBucket::new();
    assert_eq!(b.rpush(s("l"), strings(&["a", "b"])), 2);
    assert_eq!(b.rpush(s("l"), strings(&["c"])), 3);
    assert_eq!(b.range("l", 0, -1), strings(&["a", "b", "c"]));
    assert_eq!(b.len("l"), 3);
    assert_eq!(b.len("none"), 0);
    assert!(b.contains_key("l"));
    assert!(!b.contains_key("none"));
}

#[test]
fn range_indexes() {
    let mut b = ListBucket::new();
    b.rpush(s("l"), strings(&["a", "b", "c", "d", "e"]));
    assert_eq!(b.range("l", 1, 3), strings(&["b", "c", "d"]));
    assert_eq!(b.range("l", -2, -1), strings(&["d", "e"]));
    assert_eq!(b.range("l", -100, 1), strings(&["a", "b"]));
    assert_eq!(b.range("l", 3, 100), strings(&["d", "e"]));
    assert_eq!(b.range("l", 2, 1), Vec::<String>::new());
    assert_eq!(b.range("none", 0, -1), Vec::<String>::new());
    assert!(b.range_is_defined("l", 2, 1));
    assert!(!b.range_is_defined("l", 4, 1));
    assert!(b.range_is_defined("none", 9, 0));
}

#[test]
fn lrange_bounds_values() {
    assert_eq!(lrange_bounds(5, 0, -1), (0, 5));
    assert_eq!(lrange_bounds(5, -2, -1), (3, 5));
    assert_eq!(lrange_bounds(5, -9, -9), (0, 1));
    assert_eq!(lrange_bounds(0, 0, 0), (0, 0));
    assert_eq!(lrange_bounds(3, 5, 10), (5, 3));
}

#[test]
fn pop_takes_from_the_front() {
    let mut b = ListBucket::new();
    b.rpush(s("l"), strings(&["a", "b", "c"]));
    assert_eq!(b.pop("l", 2), Some(strings(&["a", "b"])));
    assert_eq!(b.pop("l", 5), Some(strings(&["c"])));
    assert_eq!(b.pop("l", 1), Some(vec![]));
    assert!(b.contains_key("l"));
    assert_eq!(b.pop("none", 1), None);
}

#[test]
fn stream_ids_order_by_time_then_sequence() {
    let a = StreamId { millis_time: 1, sequence_num: 5 };
    let b = StreamId { millis_time: 2, sequence_num: 0 };
    let c = StreamId { millis_time: 2, sequence_num: 1 };
    assert!(a < b);
    assert!(b < c);
    assert!(c > a);
    assert!(b <= b);
    assert!(id_at_most(&a, &b));
    assert!(id_at_most(&b, &b));
    assert!(!id_at_most(&c, &b));
    assert_eq!(c.to_string(), "2-1");
}

#[test]
fn xadd_explicit_ids() {
    let mut b = StreamBucket::new();
    assert_eq!(b.add(s("s"), s("1-1"), strings(&["f", "v"]), 0), Ok(s("1-1")));
    assert_eq!(b.add(s("s"), s("1-2"), vec![], 0), Ok(s("1-2")));
    assert_eq!(b.add(s("s"), s("1-2"), vec![], 0), Err(StreamError::NotIncreasing));
    assert_eq!(b.add(s("s"), s("0-5"), vec![], 0), Err(StreamError::NotIncreasing));
    assert_eq!(b.add(s("s"), s("2-0"), vec![], 0), Ok(s("2-0")));
    assert!(b.contains_key("s"));
}

#[test]
fn xadd_generated_ids() {
    let mut b = StreamBucket::new();
    assert_eq!(b.add(s("s"), s("*"), vec![], 1_700), Ok(s("1700-0")));
    assert_eq!(b.add(s("s"), s("1700-*"), vec![], 9), Ok(s("1700-1")));
    assert_eq!(b.add(s("s"), s("1700-0"), vec![], 9), Ok(s("1700-2")));
    assert_eq!(b.add(s("s"), s("*-*"), vec![], 1_800), Ok(s("1800-0")));
    let mut z = StreamBucket::new();
    assert_eq!(z.add(s("z"), s("0-*"), vec![], 5), Ok(s("0-1")));
}

#[test]
fn xadd_refused_ids() {
    let mut b = StreamBucket::new();
    let e = b.add(s("s"), s("12"), vec![], 0).unwrap_err();
    assert_eq!(e, StreamError::InvalidFormat);
    assert_eq!(e.message(), "has invalid format");
    let e = b.add(s("s"), s("0-0"), vec![], 0).unwrap_err();
    assert_eq!(e, StreamError::NotAboveZero);
    assert_eq!(e.message(), "must be greater than 0-0");
    let e = b.add(s("s"), s("x-1"), vec![], 0).unwrap_err();
    assert_eq!(e, StreamError::InvalidNumber(NumberError::InvalidDigit));
    assert_eq!(e.message(), "invalid digit found in string");
    assert!(!b.contains_key("s"));
    b.add(s("s"), s("5-5"), vec![], 0).unwrap();
    let e = b.add(s("s"), s("5-3"), vec![], 0).unwrap_err();
    assert_eq!(e.message(), "is equal or smaller than the target stream top item");
}

#[test]
fn xadd_sequence_overflow_is_reported() {
    let mut b = StreamBucket::new();
    b.add(s("s"), s("3-18446744073709551615"), vec![], 0).unwrap();
    let e = b.add(s("s"), s("3-0"), vec![], 0).unwrap_err();
    assert_eq!(e, StreamError::SequenceOverflow);
    assert_eq!(e.message(), "attempt to add with overflow");
}

#[test]
fn parse_id_does_not_change_the_stream() {
    let b = StreamBucket::new();
    assert_eq!(b.parse_id("s", "7-*", 0), Ok((7, 0)));
    assert_eq!(b.parse_id("s", "*", 42), Ok((42, 0)));
    assert!(!b.contains_key("s"));
}

fn ids(v: &[StreamEntry]) -> Vec<String> {
    v.iter().map(|e| e.id.to_string()).collect()
}

#[test]
fn xrange_bounds() {
    let mut b = StreamBucket::new();
    b.add(s("s"), s("1-1"), strings(&["a", "1"]), 0).unwrap();
    b.add(s("s"), s("1-2"), strings(&["b", "2"]), 0).unwrap();
    b.add(s("s"), s("2-0"), strings(&["c", "3"]), 0).unwrap();
    b.add(s("s"), s("3-4"), strings(&["d", "4"]), 0).unwrap();
    assert_eq!(ids(&b.range("s", "-", "+").unwrap()), strings(&["1-1", "1-2", "2-0", "3-4"]));
    assert_eq!(ids(&b.range("s", "1-2", "2").unwrap()), strings(&["1-2", "2-0"]));
    assert_eq!(ids(&b.range("s", "2", "+").unwrap()), strings(&["2-0", "3-4"]));
    assert_eq!(ids(&b.range("s", "1", "1").unwrap()), strings(&["1-1", "1-2"]));
    assert_eq!(ids(&b.range("none", "-", "+").unwrap()), Vec::<String>::new());
    let found = b.range("s", "3", "3").unwrap();
    assert_eq!(found[0].values, strings(&["d", "4"]));
    assert_eq!(b.range("s", "x", "+").unwrap_err(), StreamError::InvalidNumber(NumberError::InvalidDigit));
    assert_eq!(b.range("s", "-", "").unwrap_err(), StreamError::InvalidNumber(NumberError::Empty));
}

#[test]
fn storage_kinds() {
    let mut st = Storage::new();
    assert_eq!(st.key_type("a"), "none");
    st.kv_set(s("a"), s("1"), 0, 0);
    assert_eq!(st.key_type("a"), "string");
    st.list_rpush(s("b"), strings(&["x"]));
    assert_eq!(st.key_type("b"), "list");
}

#[test]
fn storage_text_values() {
    let mut st = Storage::new();
    st.kv_set(s("k"), s("v"), 10, 100);
    assert_eq!(st.kv_get("k", 110), Some(s("v")));
    assert_eq!(st.kv_get("k", 111), None);
    st.kv_set(s("k"), s("w"), 0, 100);
    assert_eq!(st.kv_remove("k"), Some(s("w")));
    assert_eq!(st.kv_remove("k"), None);
}

#[test]
fn storage_lpush_keeps_the_order_given() {
    let mut st = Storage::new();
    assert_eq!(st.list_lpush(s("l"), strings(&["a", "b"])), 2);
    assert_eq!(st.list_lpush(s("l"), strings(&["c", "d"])), 4);
    assert_eq!(st.list_lrange(s("l"), 0, -1), strings(&["c", "d", "a", "b"]));
    assert_eq!(st.list_rpush(s("l"), strings(&["e"])), 5);
    assert_eq!(st.list_lrange(s("l"), -2, -1), strings(&["b", "e"]));
}

#[test]
fn storage_lrange_creates_an_empty_list() {
    let mut st = Storage::new();
    assert_eq!(st.list_lrange(s("fresh"), 0, -1), Vec::<String>::new());
    assert_eq!(st.key_type("fresh"), "list");
    st.list_rpush(s("l"), strings(&["a", "b"]));
    assert_eq!(st.list_lrange(s("l"), 1, 0), Vec::<String>::new());
}

#[test]
fn xrange_bare_time_bounds() {
    let mut b = StreamBucket::new();
    b.add(s("s"), s("2-0"), vec![], 0).unwrap();
    b.add(s("s"), s("2-999"), vec![], 0).unwrap();
    b.add(s("s"), s("2-1000"), vec![], 0).unwrap();
    assert_eq!(ids(&b.range("s", "2", "2").unwrap()), strings(&["2-0", "2-999"]));
    assert_eq!(ids(&b.range("s", "2-1", "+").unwrap()), strings(&["2-999", "2-1000"]));
}

#[test]
fn len_matches_whole_range() {
    let mut b = ListBucket::new();
    assert_eq!(b.rpush(s("k"), strings(&["a", "b"])), 2);
    assert_eq!(b.len("k"), 2);
    assert_eq!(b.len("k"), b.range("k", 0, -1).len());
    assert_eq!(b.len("x"), 0);
}
