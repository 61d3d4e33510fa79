//! The keyspace store: strings with time-to-live, lists, streams, and the
//! blocking-pop attempt.
use respkv::store::{Store, StoreError};
use respkv::stream::StramValue;

fn b(s: &str) -> Vec<u8> {
    s.as_bytes().to_vec()
}

#[test]
fn set_then_get_returns_the_value() {
    let mut st = Store::new();
    st.set(b("foo"), b("bar"), None);
    assert_eq!(st.get(&b("foo"), 0), Some(b("bar")));
    assert_eq!(st.get(&b("missing"), 0), None);
}

#[test]
fn set_overwrites_whatever_was_there() {
    let mut st = Store::new();
    st.rpush(b("k"), b("x"), 0);
    st.set(b("k"), b("now a string"), None);
    assert_eq!(st.get(&b("k"), 0), Some(b("now a string")));
    assert_eq!(st.type_of(&b("k"), 0), "string");
}

#[test]
fn expired_records_are_observationally_absent() {
    let mut st = Store::new();
    st.set(b("k"), b("v"), Some(150));
    assert_eq!(st.get(&b("k"), 100), Some(b("v")));
    assert_eq!(st.get(&b("k"), 149), Some(b("v")));
    // At or past the deadline the key reads as missing and is discarded.
    assert_eq!(st.get(&b("k"), 150), None);
    assert_eq!(st.get(&b("k"), 0), None);
}

#[test]
fn expired_key_reports_no_type() {
    let mut st = Store::new();
    st.set(b("k"), b("v"), Some(50));
    assert_eq!(st.type_of(&b("k"), 100), "none");
}

#[test]
fn list_pushes_and_pops_are_fifo() {
    let mut st = Store::new();
    assert_eq!(st.rpush(b("q"), b("v1"), 0), 1);
    assert_eq!(st.rpush(b("q"), b("v2"), 0), 2);
    assert_eq!(st.rpush(b("q"), b("v3"), 0), 3);
    assert_eq!(st.lpop(&b("q"), 0), Some(b("v1")));
    assert_eq!(st.lpop(&b("q"), 0), Some(b("v2")));
    assert_eq!(st.lpop(&b("q"), 0), Some(b("v3")));
    assert_eq!(st.lpop(&b("q"), 0), None);
    // The empty list is kept, not discarded.
    assert_eq!(st.type_of(&b("q"), 0), "list");
}

#[test]
fn lpush_prepends() {
    let mut st = Store::new();
    st.rpush(b("l"), b("b"), 0);
    assert_eq!(st.lpush(b("l"), b("a"), 0), 2);
    assert_eq!(st.lpop(&b("l"), 0), Some(b("a")));
}

#[test]
fn push_on_non_list_is_a_no_op_returning_zero() {
    let mut st = Store::new();
    st.set(b("s"), b("v"), None);
    assert_eq!(st.rpush(b("s"), b("x"), 0), 0);
    assert_eq!(st.lpush(b("s"), b("x"), 0), 0);
    assert_eq!(st.get(&b("s"), 0), Some(b("v")));
}

#[test]
fn llen_counts_only_lists() {
    let mut st = Store::new();
    assert_eq!(st.llen(&b("l"), 0), 0);
    st.rpush(b("l"), b("a"), 0);
    st.rpush(b("l"), b("b"), 0);
    assert_eq!(st.llen(&b("l"), 0), 2);
    st.set(b("s"), b("v"), None);
    assert_eq!(st.llen(&b("s"), 0), 0);
}

#[test]
fn lrange_clamps_both_ends() {
    let mut st = Store::new();
    for v in ["a", "b", "c", "d", "e"] {
        st.rpush(b("l"), b(v), 0);
    }
    assert_eq!(st.lrange(&b("l"), 0, -1, 0), vec![b("a"), b("b"), b("c"), b("d"), b("e")]);
    assert_eq!(st.lrange(&b("l"), 1, 3, 0), vec![b("b"), b("c"), b("d")]);
    assert_eq!(st.lrange(&b("l"), -2, -1, 0), vec![b("d"), b("e")]);
    assert_eq!(st.lrange(&b("l"), -100, 100, 0), vec![b("a"), b("b"), b("c"), b("d"), b("e")]);
    assert_eq!(st.lrange(&b("l"), 3, 1, 0), Vec::<Vec<u8>>::new());
    assert_eq!(st.lrange(&b("l"), 5, 9, 0), Vec::<Vec<u8>>::new());
    assert_eq!(st.lrange(&b("missing"), 0, -1, 0), Vec::<Vec<u8>>::new());
}

#[test]
fn type_of_names_each_kind() {
    let mut st = Store::new();
    assert_eq!(st.type_of(&b("missing"), 0), "none");
    st.set(b("s"), b("v"), None);
    st.rpush(b("l"), b("x"), 0);
    st.xadd(b("st"), &b("1-1"), vec![(b("f"), b("v"))], 0).unwrap();
    assert_eq!(st.type_of(&b("s"), 0), "string");
    assert_eq!(st.type_of(&b("l"), 0), "list");
    assert_eq!(st.type_of(&b("st"), 0), "stream");
}

#[test]
fn store_xadd_creates_and_validates() {
    let mut st = Store::new();
    let id = st.xadd(b("s"), &b("1-1"), vec![(b("f"), b("v"))], 0).unwrap();
    assert_eq!(id.to_bytes(), b("1-1"));
    let err = st.xadd(b("s"), &b("1-1"), vec![(b("f"), b("v"))], 0).unwrap_err();
    assert_eq!(
        err.message(),
        b("The ID specified in XADD is equal or smaller than the target stream top item")
    );
}

#[test]
fn store_xadd_on_wrong_type_errors() {
    let mut st = Store::new();
    st.set(b("k"), b("v"), None);
    let err = st.xadd(b("k"), &b("1-1"), vec![(b("f"), b("v"))], 0).unwrap_err();
    assert_eq!(err, StoreError::WrongType);
    assert_eq!(err.message(), b("Operation against a key holding the wrong kind of value"));
}

#[test]
fn store_xrange_reads_back_entries() {
    let mut st = Store::new();
    st.xadd(b("s"), &b("1-1"), vec![(b("f"), b("v"))], 0).unwrap();
    st.xadd(b("s"), &b("2-1"), vec![(b("g"), b("w"))], 0).unwrap();
    let StramValue(entries) = st.xrange(&b("s"), &b("-"), &b("+"), 0).unwrap();
    assert_eq!(entries.len(), 2);
    let StramValue(none) = st.xrange(&b("missing"), &b("-"), &b("+"), 0).unwrap();
    assert!(none.is_empty());
}

#[test]
fn blpop_attempt_pairs_key_and_head() {
    let mut st = Store::new();
    assert_eq!(st.blpop(&b("q"), 0), None);
    st.rpush(b("q"), b("hello"), 0);
    assert_eq!(st.blpop(&b("q"), 0), Some((b("q"), b("hello"))));
    assert_eq!(st.blpop(&b("q"), 0), None);
}

#[test]
fn waiters_register_and_notify_without_touching_the_keyspace() {
    let mut st = Store::new();
    let rx = st.register_waiter(&b("q"));
    st.rpush(b("q"), b("x"), 0);
    // The push signalled the registered waiter.
    assert!(rx.blocking_recv().is_ok());
    // A push with nobody waiting just drains nothing.
    st.rpush(b("q"), b("y"), 0);
    assert_eq!(st.llen(&b("q"), 0), 2);
}
