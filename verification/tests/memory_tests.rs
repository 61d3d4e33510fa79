//! The self-contained keyspace with relative time-to-live.
use respkv::memory::Memory;

fn b(s: &str) -> Vec<u8> {
    s.as_bytes().to_vec()
}

#[test]
fn memory_set_then_get() {
    let mut m = Memory::new();
    m.set(b("k"), b("v"), None, 0);
    assert_eq!(m.get(&b("k"), 0), Some(b("v")));
    assert_eq!(m.get(&b("missing"), 0), None);
}

#[test]
fn memory_ttl_counts_from_creation() {
    let mut m = Memory::new();
    m.set(b("k"), b("v"), Some(100), 1000);
    assert_eq!(m.get(&b("k"), 1099), Some(b("v")));
    // One hundred milliseconds after creation the binding is stale and
    // discarded.
    assert_eq!(m.get(&b("k"), 1100), None);
    assert_eq!(m.get(&b("k"), 0), None);
}

#[test]
fn memory_rpush_grows_a_list() {
    let mut m = Memory::new();
    assert_eq!(m.rpush(b("l"), b("a"), 0), 1);
    assert_eq!(m.rpush(b("l"), b("b"), 0), 2);
    // A list bound to the key hides it from get.
    assert_eq!(m.get(&b("l"), 0), None);
    // A string bound to the key stops pushes.
    m.set(b("s"), b("v"), None, 0);
    assert_eq!(m.rpush(b("s"), b("x"), 0), 0);
}

#[test]
fn memory_lrange_clamps() {
    let mut m = Memory::new();
    for v in ["a", "b", "c"] {
        m.rpush(b("l"), b(v), 0);
    }
    assert_eq!(m.lrange(&b("l"), 0, -1), Some(vec![b("a"), b("b"), b("c")]));
    assert_eq!(m.lrange(&b("l"), 1, 1), Some(vec![b("b")]));
    assert_eq!(m.lrange(&b("l"), 2, 1), Some(vec![]));
    assert_eq!(m.lrange(&b("l"), 5, 9), Some(vec![]));
    assert_eq!(m.lrange(&b("missing"), 0, -1), None);
    m.set(b("s"), b("v"), None, 0);
    assert_eq!(m.lrange(&b("s"), 0, -1), None);
}
