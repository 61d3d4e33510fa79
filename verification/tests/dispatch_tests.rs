//! End-to-end command scenarios through the dispatcher and codec, at the
//! wire level.
use respkv::dispatch::{handler, Outcome};
use respkv::resp::{encode, RespValue};
use respkv::store::Store;

fn b(s: &str) -> Vec<u8> {
    s.as_bytes().to_vec()
}

fn cmd(tokens: &[&str]) -> Vec<Vec<u8>> {
    tokens.iter().map(|t| b(t)).collect()
}

fn wire(st: &mut Store, tokens: &[&str], now_ms: u64) -> Vec<u8> {
    match handler(cmd(tokens), st, now_ms) {
        Outcome::Reply(v) => encode(&v),
        Outcome::Block(_, _) => panic!("expected an immediate reply"),
    }
}

#[test]
fn ping_pongs() {
    let mut st = Store::new();
    assert_eq!(wire(&mut st, &["PING"], 0), b("+PONG\r\n"));
}

#[test]
fn echo_repeats_its_argument() {
    let mut st = Store::new();
    assert_eq!(wire(&mut st, &["ECHO", "hey"], 0), b("+hey\r\n"));
    assert_eq!(
        wire(&mut st, &["ECHO"], 0),
        b("-ERR wrong number of arguments for 'echo' command\r\n")
    );
}

#[test]
fn set_then_get() {
    let mut st = Store::new();
    assert_eq!(wire(&mut st, &["SET", "foo", "bar"], 0), b("+OK\r\n"));
    assert_eq!(wire(&mut st, &["GET", "foo"], 0), b("$3\r\nbar\r\n"));
    assert_eq!(wire(&mut st, &["GET", "nope"], 0), b("$-1\r\n"));
}

#[test]
fn set_with_px_expires() {
    let mut st = Store::new();
    assert_eq!(wire(&mut st, &["SET", "foo", "bar", "PX", "50"], 1000), b("+OK\r\n"));
    assert_eq!(wire(&mut st, &["GET", "foo"], 1040), b("$3\r\nbar\r\n"));
    // One hundred milliseconds later the key reads as missing.
    assert_eq!(wire(&mut st, &["GET", "foo"], 1100), b("$-1\r\n"));
}

#[test]
fn set_with_ex_counts_seconds() {
    let mut st = Store::new();
    assert_eq!(wire(&mut st, &["SET", "k", "v", "EX", "2"], 0), b("+OK\r\n"));
    assert_eq!(wire(&mut st, &["GET", "k"], 1999), b("$1\r\nv\r\n"));
    assert_eq!(wire(&mut st, &["GET", "k"], 2000), b("$-1\r\n"));
}

#[test]
fn set_rejects_bad_options() {
    let mut st = Store::new();
    assert_eq!(
        wire(&mut st, &["SET", "k", "v", "PX", "abc"], 0),
        b("-ERR value is not an integer or out of range\r\n")
    );
    assert_eq!(wire(&mut st, &["SET", "k", "v", "XX", "10"], 0), b("-ERR syntax error\r\n"));
    assert_eq!(
        wire(&mut st, &["SET", "k"], 0),
        b("-ERR wrong number of arguments for 'set' command\r\n")
    );
    assert_eq!(
        wire(&mut st, &["SET", "k", "v", "PX"], 0),
        b("-ERR wrong number of arguments for 'set' command\r\n")
    );
}

#[test]
fn dispatch_is_case_insensitive() {
    let mut st = Store::new();
    assert_eq!(wire(&mut st, &["ping"], 0), b("+PONG\r\n"));
    assert_eq!(wire(&mut st, &["sEt", "k", "v"], 0), b("+OK\r\n"));
    assert_eq!(wire(&mut st, &["get", "k"], 0), b("$1\r\nv\r\n"));
    assert_eq!(wire(&mut st, &["set", "t", "v", "px", "10"], 0), b("+OK\r\n"));
}

#[test]
fn unknown_commands_error() {
    let mut st = Store::new();
    assert_eq!(wire(&mut st, &["NOPE"], 0), b("-ERR unknown command\r\n"));
    assert_eq!(wire(&mut st, &[], 0), b("-ERR unknown command\r\n"));
}

#[test]
fn rpush_then_lrange() {
    let mut st = Store::new();
    assert_eq!(wire(&mut st, &["RPUSH", "mylist", "a", "b", "c"], 0), b(":3\r\n"));
    assert_eq!(
        wire(&mut st, &["LRANGE", "mylist", "0", "-1"], 0),
        b("*3\r\n$1\r\na\r\n$1\r\nb\r\n$1\r\nc\r\n")
    );
}

#[test]
fn lrange_rejects_non_integer_indices() {
    let mut st = Store::new();
    assert_eq!(
        wire(&mut st, &["LRANGE", "l", "x", "1"], 0),
        b("-ERR value is not an integer or out of range\r\n")
    );
}

#[test]
fn rpush_then_lpops_in_order() {
    let mut st = Store::new();
    wire(&mut st, &["RPUSH", "k", "v1", "v2", "v3"], 0);
    assert_eq!(wire(&mut st, &["LPOP", "k"], 0), b("$2\r\nv1\r\n"));
    assert_eq!(wire(&mut st, &["LPOP", "k"], 0), b("$2\r\nv2\r\n"));
    assert_eq!(wire(&mut st, &["LPOP", "k"], 0), b("$2\r\nv3\r\n"));
    assert_eq!(wire(&mut st, &["LPOP", "k"], 0), b("$-1\r\n"));
}

#[test]
fn lpop_with_count_returns_an_array() {
    let mut st = Store::new();
    wire(&mut st, &["RPUSH", "k", "a", "b", "c"], 0);
    assert_eq!(wire(&mut st, &["LPOP", "k", "2"], 0), b("*2\r\n$1\r\na\r\n$1\r\nb\r\n"));
    // Asking for more than is there drains the list.
    assert_eq!(wire(&mut st, &["LPOP", "k", "5"], 0), b("*1\r\n$1\r\nc\r\n"));
    assert_eq!(
        wire(&mut st, &["LPOP", "k", "x"], 0),
        b("-ERR value is not an integer or out of range\r\n")
    );
}

#[test]
fn llen_reports_length() {
    let mut st = Store::new();
    wire(&mut st, &["RPUSH", "k", "a", "b"], 0);
    assert_eq!(wire(&mut st, &["LLEN", "k"], 0), b(":2\r\n"));
    assert_eq!(wire(&mut st, &["LLEN", "missing"], 0), b(":0\r\n"));
}

#[test]
fn type_reports_each_kind() {
    let mut st = Store::new();
    assert_eq!(wire(&mut st, &["TYPE", "missing"], 0), b("+none\r\n"));
    wire(&mut st, &["RPUSH", "L", "x"], 0);
    assert_eq!(wire(&mut st, &["TYPE", "L"], 0), b("+list\r\n"));
    wire(&mut st, &["SET", "s", "v"], 0);
    assert_eq!(wire(&mut st, &["TYPE", "s"], 0), b("+string\r\n"));
}

#[test]
fn xadd_replies_with_the_id_and_rejects_repeats() {
    let mut st = Store::new();
    assert_eq!(wire(&mut st, &["XADD", "s", "1-1", "f", "v"], 0), b("$3\r\n1-1\r\n"));
    assert_eq!(
        wire(&mut st, &["XADD", "s", "1-1", "f", "v"], 0),
        b("-ERR The ID specified in XADD is equal or smaller than the target stream top item\r\n")
    );
}

#[test]
fn xadd_rejects_the_zero_id() {
    let mut st = Store::new();
    assert_eq!(
        wire(&mut st, &["XADD", "s", "0-0", "f", "v"], 0),
        b("-ERR The ID specified in XADD must be greater than 0-0\r\n")
    );
}

#[test]
fn xadd_rejects_an_odd_field_tail() {
    let mut st = Store::new();
    assert_eq!(wire(&mut st, &["XADD", "s", "1-1", "f"], 0), b("-ERR syntax error\r\n"));
}

#[test]
fn xrange_lists_entries_with_fields() {
    let mut st = Store::new();
    wire(&mut st, &["XADD", "s", "1-1", "f", "v"], 0);
    wire(&mut st, &["XADD", "s", "2-1", "g", "w"], 0);
    assert_eq!(
        wire(&mut st, &["XRANGE", "s", "-", "+"], 0),
        b("*2\r\n*2\r\n$3\r\n1-1\r\n*2\r\n$1\r\nf\r\n$1\r\nv\r\n*2\r\n$3\r\n2-1\r\n*2\r\n$1\r\ng\r\n$1\r\nw\r\n")
    );
}

#[test]
fn blpop_pops_immediately_when_a_value_is_there() {
    let mut st = Store::new();
    wire(&mut st, &["RPUSH", "q", "hello"], 0);
    assert_eq!(
        wire(&mut st, &["BLPOP", "q", "0"], 0),
        b("*2\r\n$1\r\nq\r\n$5\r\nhello\r\n")
    );
}

#[test]
fn blpop_blocks_with_the_requested_deadline() {
    let mut st = Store::new();
    match handler(cmd(&["BLPOP", "q", "0"]), &mut st, 500) {
        Outcome::Block(key, deadline) => {
            assert_eq!(key, b("q"));
            assert_eq!(deadline, None);
        },
        Outcome::Reply(_) => panic!("expected to block"),
    }
    match handler(cmd(&["BLPOP", "q", "0.25"]), &mut st, 500) {
        Outcome::Block(key, deadline) => {
            assert_eq!(key, b("q"));
            assert_eq!(deadline, Some(750));
        },
        Outcome::Reply(_) => panic!("expected to block"),
    }
    match handler(cmd(&["BLPOP", "q", "2"]), &mut st, 500) {
        Outcome::Block(_, deadline) => assert_eq!(deadline, Some(2500)),
        Outcome::Reply(_) => panic!("expected to block"),
    }
}

#[test]
fn blpop_rejects_a_bad_timeout() {
    let mut st = Store::new();
    assert_eq!(
        wire(&mut st, &["BLPOP", "q", "abc"], 0),
        b("-ERR timeout is not a float or out of range\r\n")
    );
    assert_eq!(
        wire(&mut st, &["BLPOP", "q", "-1"], 0),
        b("-ERR timeout is not a float or out of range\r\n")
    );
    assert_eq!(
        wire(&mut st, &["BLPOP", "q"], 0),
        b("-ERR wrong number of arguments for 'blpop' command\r\n")
    );
}

#[test]
fn failed_commands_leave_waiters_untouched() {
    let mut st = Store::new();
    let rx = st.register_waiter(&b("q"));
    // An erroneous blocking pop neither consumes nor registers a waiter,
    // and neither does an unrelated read.
    assert_eq!(
        wire(&mut st, &["BLPOP", "q", "oops"], 0),
        b("-ERR timeout is not a float or out of range\r\n")
    );
    assert_eq!(wire(&mut st, &["GET", "q"], 0), b("$-1\r\n"));
    // The push still signals the originally registered waiter.
    assert_eq!(wire(&mut st, &["RPUSH", "q", "x"], 0), b(":1\r\n"));
    assert!(rx.blocking_recv().is_ok());
}

#[test]
fn rpush_wakes_a_registered_waiter_and_blpop_sees_the_value() {
    // The two-connection exchange, sequentially: the consumer's first
    // attempt blocks and registers; the producer's push signals; the
    // consumer's retry returns the pushed value.
    let mut st = Store::new();
    let rx = match handler(cmd(&["BLPOP", "q", "0"]), &mut st, 0) {
        Outcome::Block(_, _) => st.register_waiter(&b("q")),
        Outcome::Reply(_) => panic!("expected to block"),
    };
    assert_eq!(wire(&mut st, &["RPUSH", "q", "hello"], 0), b(":1\r\n"));
    assert!(rx.blocking_recv().is_ok());
    assert_eq!(
        wire(&mut st, &["BLPOP", "q", "0"], 0),
        b("*2\r\n$1\r\nq\r\n$5\r\nhello\r\n")
    );
}
