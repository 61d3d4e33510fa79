//! The command dispatcher: case-insensitive dispatch on the first token,
//! arity and argument checking, store invocation, and reply construction.
use vstd::prelude::*;
use crate::bytes_of_str;
use crate::num::{digits_val, parse_i64, parse_i64_spec, parse_u64, parse_unsigned_spec};
use crate::record::RecordV;
use crate::resp::{views_of, RespV, RespValue};
use crate::store::{
    get_spec, lpop_spec, lpush_spec, lrange_spec, llen_spec, rpush_spec, set_spec,
    store_xadd_spec, store_xrange_spec, type_spec, Store,
};
use crate::str_bytes;
use crate::stream::{id_bytes, EntryV};
use crate::{to_upper, upper_bytes};

verus! {

/// What the dispatcher asks its caller to do: write a reply now, or
/// suspend this consumer on a key's wait queue until the deadline.
#[derive(Debug, PartialEq, Eq)]
pub enum Outcome {
    Reply(RespValue),
    Block(Vec<u8>, Option<u64>),
}

/// The abstract value of an outcome.
pub enum OutcomeV {
    Reply(RespV),
    Block(Seq<u8>, Option<u64>),
}

impl Outcome {
    /// The abstract value of the outcome.
    pub open spec fn deep(self) -> OutcomeV {
        match self {
            Outcome::Reply(v) => OutcomeV::Reply(v.deep()),
            Outcome::Block(k, dl) => OutcomeV::Block(k@, dl),
        }
    }
}

/// The commands of the dispatch surface.
#[derive(Debug, Clone, Copy, PartialEq, Eq)]
pub enum Cmd {
    Ping,
    Echo,
    SetCmd,
    Get,
    Rpush,
    Lpush,
    Lpop,
    Blpop,
    Lrange,
    Llen,
    Type,
    Xadd,
    Xrange,
    Unknown,
}

/// Which command a first token names, uppercased in ASCII.
pub open spec fn classify_spec(t: Seq<u8>) -> Cmd {
    let u = upper_bytes(t);
    if u == bytes_of_str("PING"@) {
        Cmd::Ping
    } else if u == bytes_of_str("ECHO"@) {
        Cmd::Echo
    } else if u == bytes_of_str("SET"@) {
        Cmd::SetCmd
    } else if u == bytes_of_str("GET"@) {
        Cmd::Get
    } else if u == bytes_of_str("RPUSH"@) {
        Cmd::Rpush
    } else if u == bytes_of_str("LPUSH"@) {
        Cmd::Lpush
    } else if u == bytes_of_str("LPOP"@) {
        Cmd::Lpop
    } else if u == bytes_of_str("BLPOP"@) {
        Cmd::Blpop
    } else if u == bytes_of_str("LRANGE"@) {
        Cmd::Lrange
    } else if u == bytes_of_str("LLEN"@) {
        Cmd::Llen
    } else if u == bytes_of_str("TYPE"@) {
        Cmd::Type
    } else if u == bytes_of_str("XADD"@) {
        Cmd::Xadd
    } else if u == bytes_of_str("XRANGE"@) {
        Cmd::Xrange
    } else {
        Cmd::Unknown
    }
}

/// Decides which command the token names.
fn classify(t: &Vec<u8>) -> (c: Cmd)
    ensures
        c == classify_spec(t@),
{
    proof {
        reveal_strlit("PING");
        reveal_strlit("ECHO");
        reveal_strlit("SET");
        reveal_strlit("GET");
        reveal_strlit("RPUSH");
        reveal_strlit("LPUSH");
        reveal_strlit("LPOP");
        reveal_strlit("BLPOP");
        reveal_strlit("LRANGE");
        reveal_strlit("LLEN");
        reveal_strlit("TYPE");
        reveal_strlit("XADD");
        reveal_strlit("XRANGE");
    }
    let u = to_upper(t);
    if crate::store::bytes_eq(&u, &str_bytes("PING")) {
        Cmd::Ping
    } else if crate::store::bytes_eq(&u, &str_bytes("ECHO")) {
        Cmd::Echo
    } else if crate::store::bytes_eq(&u, &str_bytes("SET")) {
        Cmd::SetCmd
    } else if crate::store::bytes_eq(&u, &str_bytes("GET")) {
        Cmd::Get
    } else if crate::store::bytes_eq(&u, &str_bytes("RPUSH")) {
        Cmd::Rpush
    } else if crate::store::bytes_eq(&u, &str_bytes("LPUSH")) {
        Cmd::Lpush
    } else if crate::store::bytes_eq(&u, &str_bytes("LPOP")) {
        Cmd::Lpop
    } else if crate::store::bytes_eq(&u, &str_bytes("BLPOP")) {
        Cmd::Blpop
    } else if crate::store::bytes_eq(&u, &str_bytes("LRANGE")) {
        Cmd::Lrange
    } else if crate::store::bytes_eq(&u, &str_bytes("LLEN")) {
        Cmd::Llen
    } else if crate::store::bytes_eq(&u, &str_bytes("TYPE")) {
        Cmd::Type
    } else if crate::store::bytes_eq(&u, &str_bytes("XADD")) {
        Cmd::Xadd
    } else if crate::store::bytes_eq(&u, &str_bytes("XRANGE")) {
        Cmd::Xrange
    } else {
        Cmd::Unknown
    }
}

/// Addition on the millisecond clock, held at the top of the range rather
/// than wrapping.
pub open spec fn sat_add64(a: u64, b: u64) -> u64 {
    if a + b > u64::MAX {
        u64::MAX
    } else {
        (a + b) as u64
    }
}

/// Seconds to milliseconds, held at the top of the range.
pub open spec fn sat_mul1000(a: u64) -> u64 {
    if a > u64::MAX / 1000 {
        u64::MAX
    } else {
        (a * 1000) as u64
    }
}

/// Saturating clock addition.
pub fn sat_add(a: u64, b: u64) -> (r: u64)
    ensures
        r == sat_add64(a, b),
{
    if a > u64::MAX - b {
        u64::MAX
    } else {
        a + b
    }
}

/// Saturating seconds-to-milliseconds conversion.
pub fn sat_mul(a: u64) -> (r: u64)
    ensures
        r == sat_mul1000(a),
{
    if a > u64::MAX / 1000 {
        u64::MAX
    } else {
        a * 1000
    }
}

/// What `ECHO` replies: its argument as a simple string.
pub open spec fn do_echo(args: Seq<Seq<u8>>, m: Map<Seq<u8>, RecordV>) -> (
    Map<Seq<u8>, RecordV>,
    OutcomeV,
) {
    if args.len() < 1 {
        (m, OutcomeV::Reply(RespV::Error(bytes_of_str("wrong number of arguments for 'echo' command"@))))
    } else {
        (m, OutcomeV::Reply(RespV::SimpleString(args[0])))
    }
}

/// What `SET` does: parses the optional `EX`/`PX` time-to-live (the unit
/// count is parsed before the flag is examined), binds the key, and
/// acknowledges.
pub open spec fn do_set(args: Seq<Seq<u8>>, m: Map<Seq<u8>, RecordV>, now_ms: u64) -> (
    Map<Seq<u8>, RecordV>,
    OutcomeV,
) {
    if args.len() < 2 {
        (m, OutcomeV::Reply(RespV::Error(bytes_of_str("wrong number of arguments for 'set' command"@))))
    } else if args.len() >= 3 {
        if args.len() < 4 {
            (m, OutcomeV::Reply(RespV::Error(bytes_of_str("wrong number of arguments for 'set' command"@))))
        } else {
            match parse_unsigned_spec(args[3], u64::MAX as nat) {
                None => (
                    m,
                    OutcomeV::Reply(RespV::Error(bytes_of_str("value is not an integer or out of range"@))),
                ),
                Some(t) => {
                    let flag = upper_bytes(args[2]);
                    if flag == bytes_of_str("EX"@) {
                        (
                            set_spec(m, args[0], args[1], Some(sat_add64(now_ms, sat_mul1000(t as u64)))),
                            OutcomeV::Reply(RespV::SimpleString(bytes_of_str("OK"@))),
                        )
                    } else if flag == bytes_of_str("PX"@) {
                        (
                            set_spec(m, args[0], args[1], Some(sat_add64(now_ms, t as u64))),
                            OutcomeV::Reply(RespV::SimpleString(bytes_of_str("OK"@))),
                        )
                    } else {
                        (m, OutcomeV::Reply(RespV::Error(bytes_of_str("syntax error"@))))
                    }
                },
            }
        }
    } else {
        (
            set_spec(m, args[0], args[1], None),
            OutcomeV::Reply(RespV::SimpleString(bytes_of_str("OK"@))),
        )
    }
}

/// What `GET` replies: the bound string as a bulk string, or the null
/// bulk.
pub open spec fn do_get(args: Seq<Seq<u8>>, m: Map<Seq<u8>, RecordV>, now_ms: u64) -> (
    Map<Seq<u8>, RecordV>,
    OutcomeV,
) {
    if args.len() < 1 {
        (m, OutcomeV::Reply(RespV::Error(bytes_of_str("wrong number of arguments for 'get' command"@))))
    } else {
        let r = get_spec(m, args[0], now_ms);
        match r.1 {
            Some(v) => (r.0, OutcomeV::Reply(RespV::BulkString(Some(v)))),
            None => (r.0, OutcomeV::Reply(RespV::Null)),
        }
    }
}

/// What `LLEN` replies: the list length as an integer.
pub open spec fn do_llen(args: Seq<Seq<u8>>, m: Map<Seq<u8>, RecordV>, now_ms: u64) -> (
    Map<Seq<u8>, RecordV>,
    OutcomeV,
) {
    if args.len() < 1 {
        (m, OutcomeV::Reply(RespV::Error(bytes_of_str("wrong number of arguments for 'llen' command"@))))
    } else {
        let r = llen_spec(m, args[0], now_ms);
        (r.0, OutcomeV::Reply(RespV::Integer(r.1 as i64)))
    }
}

/// The bulk-string replies of a vector of values.
pub open spec fn bulks_of(vs: Seq<Seq<u8>>) -> Seq<RespV> {
    vs.map(|_i: int, v: Seq<u8>| RespV::BulkString(Some(v)))
}

/// What `RPUSH` does: pushes every value in turn and reports the length
/// the last push returned.
pub open spec fn do_rpush(args: Seq<Seq<u8>>, m: Map<Seq<u8>, RecordV>, now_ms: u64) -> (
    Map<Seq<u8>, RecordV>,
    OutcomeV,
) {
    if args.len() < 2 {
        (m, OutcomeV::Reply(RespV::Error(bytes_of_str("wrong number of arguments for 'rpush' command"@))))
    } else {
        let r = crate::store::rpush_all(m, args[0], args.skip(1), now_ms);
        (r.0, OutcomeV::Reply(RespV::Integer(r.1 as i64)))
    }
}

/// What `LPUSH` does, as `RPUSH` prepending.
pub open spec fn do_lpush(args: Seq<Seq<u8>>, m: Map<Seq<u8>, RecordV>, now_ms: u64) -> (
    Map<Seq<u8>, RecordV>,
    OutcomeV,
) {
    if args.len() < 2 {
        (m, OutcomeV::Reply(RespV::Error(bytes_of_str("wrong number of arguments for 'lpush' command"@))))
    } else {
        let r = crate::store::lpush_all(m, args[0], args.skip(1), now_ms);
        (r.0, OutcomeV::Reply(RespV::Integer(r.1 as i64)))
    }
}

/// What `LPOP` does: one pop as a bulk string or null, or, with a count
/// above one, up to that many pops as an array.
pub open spec fn do_lpop(args: Seq<Seq<u8>>, m: Map<Seq<u8>, RecordV>, now_ms: u64) -> (
    Map<Seq<u8>, RecordV>,
    OutcomeV,
) {
    if args.len() < 1 {
        (m, OutcomeV::Reply(RespV::Error(bytes_of_str("wrong number of arguments for 'lpop' command"@))))
    } else {
        let c = if args.len() >= 2 {
            parse_unsigned_spec(args[1], usize::MAX as nat)
        } else {
            Some(1 as nat)
        };
        match c {
            None => (
                m,
                OutcomeV::Reply(RespV::Error(bytes_of_str("value is not an integer or out of range"@))),
            ),
            Some(count) => if count > 1 {
                let r = crate::store::lpop_many(m, args[0], count, now_ms);
                (r.0, OutcomeV::Reply(RespV::Array(bulks_of(r.1))))
            } else {
                let r = lpop_spec(m, args[0], now_ms);
                match r.1 {
                    Some(v) => (r.0, OutcomeV::Reply(RespV::BulkString(Some(v)))),
                    None => (r.0, OutcomeV::Reply(RespV::Null)),
                }
            },
        }
    }
}

/// The index of the first `.` of the string, if any.
pub open spec fn find_dot(s: Seq<u8>) -> Option<int>
    decreases s.len(),
{
    if s.len() == 0 {
        None
    } else if s[0] == 46 {
        Some(0)
    } else {
        match find_dot(s.drop_first()) {
            Some(j) => Some(j + 1),
            None => None,
        }
    }
}

/// The milliseconds the first three fractional digits stand for.
pub open spec fn frac_ms(frac: Seq<u8>) -> u64 {
    if frac.len() >= 3 {
        (digits_val(frac.take(3)) as u64)
    } else if frac.len() == 2 {
        ((digits_val(frac) * 10) as u64)
    } else if frac.len() == 1 {
        ((digits_val(frac) * 100) as u64)
    } else {
        0
    }
}

/// What parsing a fractional-second timeout yields: whether it is zero
/// (wait forever) and its milliseconds, rounded down past millisecond
/// precision. The accepted forms are plain decimals with an optional
/// leading `+` and at most one `.`; the whole-second part must fit.
pub open spec fn parse_timeout_spec(s: Seq<u8>) -> Option<(bool, u64)> {
    let d = crate::num::strip_plus(s);
    match find_dot(d) {
        None => {
            match parse_unsigned_spec(s, u64::MAX as nat) {
                Some(v) => Some((v == 0, sat_mul1000(v as u64))),
                None => None,
            }
        },
        Some(i) => {
            let ip = d.take(i);
            let fp = d.skip(i + 1);
            if !crate::num::all_digits(ip) || !crate::num::all_digits(fp) || ip.len() + fp.len()
                == 0 || digits_val(ip) > u64::MAX as nat {
                None
            } else {
                Some(
                    (
                        digits_val(ip) == 0 && digits_val(fp) == 0,
                        sat_add64(sat_mul1000(digits_val(ip) as u64), frac_ms(fp)),
                    ),
                )
            }
        },
    }
}

/// What `BLPOP` does: an immediate pop when a value is there, else an
/// instruction to suspend until the deadline (none for a zero timeout).
pub open spec fn do_blpop(args: Seq<Seq<u8>>, m: Map<Seq<u8>, RecordV>, now_ms: u64) -> (
    Map<Seq<u8>, RecordV>,
    OutcomeV,
) {
    if args.len() < 2 {
        (m, OutcomeV::Reply(RespV::Error(bytes_of_str("wrong number of arguments for 'blpop' command"@))))
    } else {
        match parse_timeout_spec(args[1]) {
            None => (
                m,
                OutcomeV::Reply(RespV::Error(bytes_of_str("timeout is not a float or out of range"@))),
            ),
            Some(t) => {
                let r = lpop_spec(m, args[0], now_ms);
                match r.1 {
                    Some(v) => (
                        r.0,
                        OutcomeV::Reply(
                            RespV::Array(
                                seq![
                                    RespV::BulkString(Some(args[0])),
                                    RespV::BulkString(Some(v)),
                                ],
                            ),
                        ),
                    ),
                    None => (
                        r.0,
                        OutcomeV::Block(
                            args[0],
                            if t.0 {
                                None
                            } else {
                                Some(sat_add64(now_ms, t.1))
                            },
                        ),
                    ),
                }
            },
        }
    }
}

/// What `LRANGE` replies: the clamped slice as an array of bulk strings.
pub open spec fn do_lrange(args: Seq<Seq<u8>>, m: Map<Seq<u8>, RecordV>, now_ms: u64) -> (
    Map<Seq<u8>, RecordV>,
    OutcomeV,
) {
    if args.len() < 3 {
        (m, OutcomeV::Reply(RespV::Error(bytes_of_str("wrong number of arguments for 'lrange' command"@))))
    } else {
        match (parse_i64_spec(args[1]), parse_i64_spec(args[2])) {
            (Some(s), Some(e)) => {
                let r = lrange_spec(m, args[0], s as int, e as int, now_ms);
                (r.0, OutcomeV::Reply(RespV::Array(bulks_of(r.1))))
            },
            _ => (
                m,
                OutcomeV::Reply(RespV::Error(bytes_of_str("value is not an integer or out of range"@))),
            ),
        }
    }
}

/// Consecutive tokens paired off as field and value.
pub open spec fn pair_up(s: Seq<Seq<u8>>) -> Seq<(Seq<u8>, Seq<u8>)>
    decreases s.len(),
{
    if s.len() < 2 {
        Seq::empty()
    } else {
        seq![(s[0], s[1])] + pair_up(s.skip(2))
    }
}

/// What `XADD` does: pairs off the field tokens (an odd count is a syntax
/// error), appends to the stream, and replies with the assigned
/// identifier or the rejection.
pub open spec fn do_xadd(args: Seq<Seq<u8>>, m: Map<Seq<u8>, RecordV>, now_ms: u64) -> (
    Map<Seq<u8>, RecordV>,
    OutcomeV,
) {
    if args.len() < 3 {
        (m, OutcomeV::Reply(RespV::Error(bytes_of_str("wrong number of arguments for 'xadd' command"@))))
    } else if (args.len() - 2) % 2 == 1 {
        (m, OutcomeV::Reply(RespV::Error(bytes_of_str("syntax error"@))))
    } else {
        let r = store_xadd_spec(m, args[0], args[1], pair_up(args.skip(2)), now_ms);
        match r.1 {
            Ok(id) => (r.0, OutcomeV::Reply(RespV::BulkString(Some(id_bytes(id))))),
            Err(e) => (r.0, OutcomeV::Reply(RespV::Error(e.message_spec()))),
        }
    }
}

/// The wire shape of one stream entry: its identifier, then its fields
/// and values interleaved.
pub open spec fn flat_fields(fields: Seq<(Seq<u8>, Seq<u8>)>) -> Seq<RespV>
    decreases fields.len(),
{
    if fields.len() == 0 {
        Seq::empty()
    } else {
        seq![
            RespV::BulkString(Some(fields[0].0)),
            RespV::BulkString(Some(fields[0].1)),
        ] + flat_fields(fields.drop_first())
    }
}

/// The reply for one stream entry.
pub open spec fn entry_reply(e: EntryV) -> RespV {
    RespV::Array(
        seq![RespV::BulkString(Some(id_bytes(e.id))), RespV::Array(flat_fields(e.fields))],
    )
}

/// The replies for a vector of stream entries.
pub open spec fn entries_reply(es: Seq<EntryV>) -> Seq<RespV> {
    es.map(|_i: int, e: EntryV| entry_reply(e))
}

/// What `XRANGE` replies: the entries in range, each as `[id, [f, v, …]]`.
pub open spec fn do_xrange(args: Seq<Seq<u8>>, m: Map<Seq<u8>, RecordV>, now_ms: u64) -> (
    Map<Seq<u8>, RecordV>,
    OutcomeV,
) {
    if args.len() < 3 {
        (m, OutcomeV::Reply(RespV::Error(bytes_of_str("wrong number of arguments for 'xrange' command"@))))
    } else {
        let r = store_xrange_spec(m, args[0], args[1], args[2], now_ms);
        match r.1 {
            Ok(es) => (r.0, OutcomeV::Reply(RespV::Array(entries_reply(es)))),
            Err(e) => (r.0, OutcomeV::Reply(RespV::Error(e.message_spec()))),
        }
    }
}

/// What one decoded request does to the keyspace and replies: dispatch is
/// a case-insensitive match on the first token, and every other token is
/// taken as it stands.
pub open spec fn dispatch_spec(cmd: Seq<Seq<u8>>, m: Map<Seq<u8>, RecordV>, now_ms: u64) -> (
    Map<Seq<u8>, RecordV>,
    OutcomeV,
) {
    if cmd.len() == 0 {
        (m, OutcomeV::Reply(RespV::Error(bytes_of_str("unknown command"@))))
    } else {
        let args = cmd.skip(1);
        match classify_spec(cmd[0]) {
            Cmd::Ping => (m, OutcomeV::Reply(RespV::SimpleString(bytes_of_str("PONG"@)))),
            Cmd::Echo => do_echo(args, m),
            Cmd::SetCmd => do_set(args, m, now_ms),
            Cmd::Get => do_get(args, m, now_ms),
            Cmd::Rpush => do_rpush(args, m, now_ms),
            Cmd::Lpush => do_lpush(args, m, now_ms),
            Cmd::Lpop => do_lpop(args, m, now_ms),
            Cmd::Blpop => do_blpop(args, m, now_ms),
            Cmd::Lrange => do_lrange(args, m, now_ms),
            Cmd::Llen => do_llen(args, m, now_ms),
            Cmd::Type => do_type(args, m, now_ms),
            Cmd::Xadd => do_xadd(args, m, now_ms),
            Cmd::Xrange => do_xrange(args, m, now_ms),
            Cmd::Unknown => (m, OutcomeV::Reply(RespV::Error(bytes_of_str("unknown command"@)))),
        }
    }
}

/// What one dispatched request does to the wait queues: a push command
/// only consumes a prefix of the pushed key's queue, waking its head when
/// anything was appended and a waiter was there; every other request
/// leaves every queue exactly as it was.
pub open spec fn queue_effect(cmd: Seq<Seq<u8>>, now_ms: u64, s0: Store, s1: Store) -> bool {
    if cmd.len() >= 3 && (classify_spec(cmd[0]) == Cmd::Rpush || classify_spec(cmd[0])
        == Cmd::Lpush) {
        let k = cmd[1];
        let pushed = if classify_spec(cmd[0]) == Cmd::Rpush {
            crate::store::rpush_all(s0@, k, cmd.skip(2), now_ms).1
        } else {
            crate::store::lpush_all(s0@, k, cmd.skip(2), now_ms).1
        };
        &&& (forall|k2: Seq<u8>| k2 != k ==> s1.wqueue(k2) == s0.wqueue(k2))
        &&& (exists|p: int|
            0 <= p <= s0.wqueue(k).len() && s1.wqueue(k) == s0.wqueue(k).skip(p))
        &&& (pushed > 0 && s0.wqueue(k).len() > 0 ==> s1.wqueue(k).len() < s0.wqueue(k).len())
    } else {
        forall|k2: Seq<u8>| s1.wqueue(k2) == s0.wqueue(k2)
    }
}

/// Dispatch is case-insensitive in the command name: two requests that
/// agree everywhere but in the casing of their first token behave
/// identically, on every store and at every instant.
pub proof fn lemma_dispatch_case_insensitive(
    c1: Seq<Seq<u8>>,
    c2: Seq<Seq<u8>>,
    m: Map<Seq<u8>, RecordV>,
    now_ms: u64,
)
    requires
        c1.len() == c2.len(),
        c1.len() > 0,
        upper_bytes(c1[0]) == upper_bytes(c2[0]),
        forall|i: int| 1 <= i < c1.len() ==> c1[i] == c2[i],
    ensures
        dispatch_spec(c1, m, now_ms) == dispatch_spec(c2, m, now_ms),
{
    assert(c1.skip(1) =~= c2.skip(1));
    assert(classify_spec(c1[0]) == classify_spec(c2[0]));
}

/// Reveals the option-flag literals the set command compares against.
proof fn lemma_flag_literals_differ()
    ensures
        bytes_of_str("PX"@) != bytes_of_str("EX"@),
{
    reveal_strlit("PX");
    reveal_strlit("EX");
    assert(bytes_of_str("PX"@)[0] == 80);
    assert(bytes_of_str("EX"@)[0] == 69);
}

/// Time-to-live at the command level: after a write whose `PX` count
/// parsed to `t`, a read strictly before `now + t` replies with the bulk
/// value, and a read at or past it replies with the null bulk.
pub proof fn lemma_set_px_then_get(
    args: Seq<Seq<u8>>,
    m: Map<Seq<u8>, RecordV>,
    now_ms: u64,
    t: nat,
    read_ms: u64,
)
    requires
        args.len() == 4,
        upper_bytes(args[2]) == bytes_of_str("PX"@),
        parse_unsigned_spec(args[3], u64::MAX as nat) == Some(t),
    ensures
        read_ms >= sat_add64(now_ms, t as u64) ==> do_get(
            args.take(1),
            do_set(args, m, now_ms).0,
            read_ms,
        ).1 == OutcomeV::Reply(RespV::Null),
        read_ms < sat_add64(now_ms, t as u64) ==> do_get(
            args.take(1),
            do_set(args, m, now_ms).0,
            read_ms,
        ).1 == OutcomeV::Reply(RespV::BulkString(Some(args[1]))),
{
    lemma_flag_literals_differ();
    let deadline = sat_add64(now_ms, t as u64);
    crate::store::lemma_ttl_observability(m, args[0], args[1], deadline, read_ms);
    assert(args.take(1)[0] == args[0]);
}

/// What `TYPE` replies: the name of the bound record's type.
pub open spec fn do_type(args: Seq<Seq<u8>>, m: Map<Seq<u8>, RecordV>, now_ms: u64) -> (
    Map<Seq<u8>, RecordV>,
    OutcomeV,
) {
    if args.len() < 1 {
        (m, OutcomeV::Reply(RespV::Error(bytes_of_str("wrong number of arguments for 'type' command"@))))
    } else {
        let r = type_spec(m, args[0], now_ms);
        (r.0, OutcomeV::Reply(RespV::SimpleString(bytes_of_str(r.1))))
    }
}

/// Builds an error reply from its fixed text.
fn reply_err(msg: &str) -> (r: Outcome)
    requires
        msg.is_ascii(),
    ensures
        r.deep() == OutcomeV::Reply(RespV::Error(bytes_of_str(msg@))),
{
    Outcome::Reply(RespValue::Error(str_bytes(msg)))
}

/// Runs `SET`.
fn run_set(command: &Vec<Vec<u8>>, store: &mut Store, now_ms: u64) -> (r: Outcome)
    requires
        old(store).wf(),
        command@.len() >= 1,
    ensures
        final(store).wf(),
        final(store)@ == do_set(views_of(command@).skip(1), old(store)@, now_ms).0,
        r.deep() == do_set(views_of(command@).skip(1), old(store)@, now_ms).1,
        forall|k2: Seq<u8>| final(store).wqueue(k2) == old(store).wqueue(k2),
{
    let ghost args = views_of(command@).skip(1);
    proof {
        assert(forall|i: int|
            0 <= i < args.len() ==> args[i] == #[trigger] command@[i + 1]@);
    }
    if command.len() < 3 {
        proof {
            reveal_strlit("wrong number of arguments for 'set' command");
        }
        return reply_err("wrong number of arguments for 'set' command");
    }
    let expiration: Option<u64> = if command.len() >= 4 {
        if command.len() < 5 {
            proof {
                reveal_strlit("wrong number of arguments for 'set' command");
            }
            return reply_err("wrong number of arguments for 'set' command");
        }
        match parse_u64(&command[4]) {
            None => {
                proof {
                    reveal_strlit("value is not an integer or out of range");
                }
                return reply_err("value is not an integer or out of range");
            },
            Some(t) => {
                let flag = to_upper(&command[3]);
                proof {
                    reveal_strlit("EX");
                    reveal_strlit("PX");
                }
                if crate::store::bytes_eq(&flag, &str_bytes("EX")) {
                    Some(sat_add(now_ms, sat_mul(t)))
                } else if crate::store::bytes_eq(&flag, &str_bytes("PX")) {
                    Some(sat_add(now_ms, t))
                } else {
                    proof {
                        reveal_strlit("syntax error");
                    }
                    return reply_err("syntax error");
                }
            },
        }
    } else {
        None
    };
    let key = crate::resp::copy_bytes(&command[1]);
    let value = crate::resp::copy_bytes(&command[2]);
    store.set(key, value, expiration);
    proof {
        reveal_strlit("OK");
    }
    Outcome::Reply(RespValue::SimpleString(str_bytes("OK")))
}

/// Runs `GET`.
fn run_get(command: &Vec<Vec<u8>>, store: &mut Store, now_ms: u64) -> (r: Outcome)
    requires
        old(store).wf(),
        command@.len() >= 1,
    ensures
        final(store).wf(),
        final(store)@ == do_get(views_of(command@).skip(1), old(store)@, now_ms).0,
        r.deep() == do_get(views_of(command@).skip(1), old(store)@, now_ms).1,
        forall|k2: Seq<u8>| final(store).wqueue(k2) == old(store).wqueue(k2),
{
    let ghost args = views_of(command@).skip(1);
    proof {
        assert(forall|i: int|
            0 <= i < args.len() ==> args[i] == #[trigger] command@[i + 1]@);
    }
    if command.len() < 2 {
        proof {
            reveal_strlit("wrong number of arguments for 'get' command");
        }
        return reply_err("wrong number of arguments for 'get' command");
    }
    match store.get(&command[1], now_ms) {
        Some(v) => Outcome::Reply(RespValue::BulkString(Some(v))),
        None => Outcome::Reply(RespValue::Null),
    }
}

/// Runs `LLEN`.
fn run_llen(command: &Vec<Vec<u8>>, store: &mut Store, now_ms: u64) -> (r: Outcome)
    requires
        old(store).wf(),
        command@.len() >= 1,
    ensures
        final(store).wf(),
        final(store)@ == do_llen(views_of(command@).skip(1), old(store)@, now_ms).0,
        r.deep() == do_llen(views_of(command@).skip(1), old(store)@, now_ms).1,
        forall|k2: Seq<u8>| final(store).wqueue(k2) == old(store).wqueue(k2),
{
    let ghost args = views_of(command@).skip(1);
    proof {
        assert(forall|i: int|
            0 <= i < args.len() ==> args[i] == #[trigger] command@[i + 1]@);
    }
    if command.len() < 2 {
        proof {
            reveal_strlit("wrong number of arguments for 'llen' command");
        }
        return reply_err("wrong number of arguments for 'llen' command");
    }
    let n = store.llen(&command[1], now_ms);
    Outcome::Reply(RespValue::Integer(n as i64))
}

/// Runs `TYPE`.
fn run_type(command: &Vec<Vec<u8>>, store: &mut Store, now_ms: u64) -> (r: Outcome)
    requires
        old(store).wf(),
        command@.len() >= 1,
    ensures
        final(store).wf(),
        final(store)@ == do_type(views_of(command@).skip(1), old(store)@, now_ms).0,
        r.deep() == do_type(views_of(command@).skip(1), old(store)@, now_ms).1,
        forall|k2: Seq<u8>| final(store).wqueue(k2) == old(store).wqueue(k2),
{
    let ghost args = views_of(command@).skip(1);
    proof {
        assert(forall|i: int|
            0 <= i < args.len() ==> args[i] == #[trigger] command@[i + 1]@);
    }
    if command.len() < 2 {
        proof {
            reveal_strlit("wrong number of arguments for 'type' command");
        }
        return reply_err("wrong number of arguments for 'type' command");
    }
    let name = store.type_of(&command[1], now_ms);
    proof {
        vstd::string::is_ascii_spec_bytes(name);
        reveal_strlit("string");
        reveal_strlit("list");
        reveal_strlit("stream");
        reveal_strlit("none");
    }
    Outcome::Reply(RespValue::SimpleString(str_bytes(name)))
}

/// Runs `LRANGE`.
fn run_lrange(command: &Vec<Vec<u8>>, store: &mut Store, now_ms: u64) -> (r: Outcome)
    requires
        old(store).wf(),
        command@.len() >= 1,
    ensures
        final(store).wf(),
        final(store)@ == do_lrange(views_of(command@).skip(1), old(store)@, now_ms).0,
        r.deep() == do_lrange(views_of(command@).skip(1), old(store)@, now_ms).1,
        forall|k2: Seq<u8>| final(store).wqueue(k2) == old(store).wqueue(k2),
{
    let ghost args = views_of(command@).skip(1);
    proof {
        assert(forall|i: int|
            0 <= i < args.len() ==> args[i] == #[trigger] command@[i + 1]@);
    }
    if command.len() < 4 {
        proof {
            reveal_strlit("wrong number of arguments for 'lrange' command");
        }
        return reply_err("wrong number of arguments for 'lrange' command");
    }
    let start = match parse_i64(&command[2]) {
        Some(v) => v,
        None => {
            proof {
                reveal_strlit("value is not an integer or out of range");
            }
            return reply_err("value is not an integer or out of range");
        },
    };
    let stop = match parse_i64(&command[3]) {
        Some(v) => v,
        None => {
            proof {
                reveal_strlit("value is not an integer or out of range");
            }
            return reply_err("value is not an integer or out of range");
        },
    };
    let vs = store.lrange(&command[1], start, stop, now_ms);
    let ghost vsv = views_of(vs@);
    let mut out: Vec<RespValue> = Vec::new();
    let mut i: usize = 0;
    proof {
        assert(crate::resp::deep_list(out@) =~= bulks_of(vsv).take(0));
    }
    while i < vs.len()
        invariant
            i <= vs@.len(),
            vsv == views_of(vs@),
            crate::resp::deep_list(out@) == bulks_of(vsv).take(i as int),
        decreases vs@.len() - i,
    {
        let ghost prev = out@;
        let b = crate::resp::copy_bytes(&vs[i]);
        out.push(RespValue::BulkString(Some(b)));
        proof {
            crate::resp::lemma_deep_list_push(prev, RespValue::BulkString(Some(b)));
            assert(crate::resp::deep_list(out@) =~= bulks_of(vsv).take(i as int + 1));
        }
        i = i + 1;
    }
    proof {
        assert(bulks_of(vsv).take(vs@.len() as int) =~= bulks_of(vsv));
    }
    Outcome::Reply(RespValue::Array(out))
}

/// Runs `RPUSH`.
fn run_rpush(command: &Vec<Vec<u8>>, store: &mut Store, now_ms: u64) -> (r: Outcome)
    requires
        old(store).wf(),
        command@.len() >= 1,
    ensures
        final(store).wf(),
        final(store)@ == do_rpush(views_of(command@).skip(1), old(store)@, now_ms).0,
        r.deep() == do_rpush(views_of(command@).skip(1), old(store)@, now_ms).1,
        command@.len() < 3 ==> forall|k2: Seq<u8>|
            final(store).wqueue(k2) == old(store).wqueue(k2),
        command@.len() >= 3 ==> forall|k2: Seq<u8>|
            k2 != command@[1]@ ==> final(store).wqueue(k2) == old(store).wqueue(k2),
        command@.len() >= 3 ==> exists|p: int|
            0 <= p <= old(store).wqueue(command@[1]@).len() && final(store).wqueue(
                command@[1]@,
            ) == old(store).wqueue(command@[1]@).skip(p),
        command@.len() >= 3 && crate::store::rpush_all(
            old(store)@,
            command@[1]@,
            views_of(command@).skip(2),
            now_ms,
        ).1 > 0 && old(store).wqueue(command@[1]@).len() > 0 ==> final(store).wqueue(
            command@[1]@,
        ).len() < old(store).wqueue(command@[1]@).len(),
{
    let ghost args = views_of(command@).skip(1);
    proof {
        assert(forall|i: int|
            0 <= i < args.len() ==> args[i] == #[trigger] command@[i + 1]@);
    }
    if command.len() < 3 {
        proof {
            reveal_strlit("wrong number of arguments for 'rpush' command");
        }
        return reply_err("wrong number of arguments for 'rpush' command");
    }
    let ghost m0 = store@;
    let ghost vs = views_of(command@).skip(2);
    let ghost k = command@[1]@;
    let mut n: usize = 0;
    let mut i: usize = 2;
    proof {
        assert(forall|j: int| 0 <= j < vs.len() ==> vs[j] == #[trigger] command@[j + 2]@);
        assert(vs.skip(0) =~= vs);
        assert(args.skip(1) =~= vs);
        assert(args[0] == k);
        assert(old(store).wqueue(k).skip(0) =~= old(store).wqueue(k));
    }
    while i < command.len()
        invariant
            store.wf(),
            2 <= i <= command@.len(),
            command@.len() >= 3,
            vs == views_of(command@).skip(2),
            k == command@[1]@,
            forall|j: int| 0 <= j < vs.len() ==> vs[j] == #[trigger] command@[j + 2]@,
            crate::store::rpush_all(m0, k, vs, now_ms).0 == crate::store::rpush_all(
                store@,
                k,
                vs.skip(i - 2),
                now_ms,
            ).0,
            vs.skip(i - 2).len() > 0 ==> crate::store::rpush_all(m0, k, vs, now_ms).1
                == crate::store::rpush_all(store@, k, vs.skip(i - 2), now_ms).1,
            vs.skip(i - 2).len() == 0 ==> crate::store::rpush_all(m0, k, vs, now_ms).1 == (
            n as nat),
            forall|k2: Seq<u8>| k2 != k ==> store.wqueue(k2) == old(store).wqueue(k2),
            exists|p: int|
                0 <= p <= old(store).wqueue(k).len() && store.wqueue(k) == old(store).wqueue(
                    k,
                ).skip(p),
            n > 0 && i > 2 && old(store).wqueue(k).len() > 0 ==> store.wqueue(k).len() < old(
                store,
            ).wqueue(k).len(),
        decreases command@.len() - i,
    {
        let ghost pre = store@;
        let ghost spre = *store;
        let ghost rest = vs.skip(i - 2);
        let key = crate::resp::copy_bytes(&command[1]);
        let value = crate::resp::copy_bytes(&command[i]);
        n = store.rpush(key, value, now_ms);
        proof {
            assert(rest.len() == vs.len() - (i - 2));
            assert(rest[0] == vs[i - 2]);
            assert(rest.drop_first() =~= vs.skip(i - 1));
            let ow = old(store).wqueue(k);
            let p0 = choose|p: int| 0 <= p <= ow.len() && spre.wqueue(k) == ow.skip(p);
            let q0 = choose|q: int|
                0 <= q <= spre.wqueue(k).len() && store.wqueue(k) == spre.wqueue(k).skip(q);
            assert(ow.skip(p0).skip(q0) =~= ow.skip(p0 + q0));
            assert(0 <= p0 + q0 <= ow.len() && store.wqueue(k) == ow.skip(p0 + q0));
            if n > 0 && ow.len() > 0 {
                if p0 == 0 {
                    assert(spre.wqueue(k) =~= ow);
                    assert(store.wqueue(k).len() < ow.len());
                } else {
                    assert(spre.wqueue(k).len() < ow.len());
                    assert(store.wqueue(k).len() <= spre.wqueue(k).len());
                }
            }
        }
        i = i + 1;
    }
    proof {
        assert(vs.skip(vs.len() as int).len() == 0);
    }
    Outcome::Reply(RespValue::Integer(n as i64))
}

/// Runs `LPUSH`.
fn run_lpush(command: &Vec<Vec<u8>>, store: &mut Store, now_ms: u64) -> (r: Outcome)
    requires
        old(store).wf(),
        command@.len() >= 1,
    ensures
        final(store).wf(),
        final(store)@ == do_lpush(views_of(command@).skip(1), old(store)@, now_ms).0,
        r.deep() == do_lpush(views_of(command@).skip(1), old(store)@, now_ms).1,
        command@.len() < 3 ==> forall|k2: Seq<u8>|
            final(store).wqueue(k2) == old(store).wqueue(k2),
        command@.len() >= 3 ==> forall|k2: Seq<u8>|
            k2 != command@[1]@ ==> final(store).wqueue(k2) == old(store).wqueue(k2),
        command@.len() >= 3 ==> exists|p: int|
            0 <= p <= old(store).wqueue(command@[1]@).len() && final(store).wqueue(
                command@[1]@,
            ) == old(store).wqueue(command@[1]@).skip(p),
        command@.len() >= 3 && crate::store::lpush_all(
            old(store)@,
            command@[1]@,
            views_of(command@).skip(2),
            now_ms,
        ).1 > 0 && old(store).wqueue(command@[1]@).len() > 0 ==> final(store).wqueue(
            command@[1]@,
        ).len() < old(store).wqueue(command@[1]@).len(),
{
    let ghost args = views_of(command@).skip(1);
    proof {
        assert(forall|i: int|
            0 <= i < args.len() ==> args[i] == #[trigger] command@[i + 1]@);
    }
    if command.len() < 3 {
        proof {
            reveal_strlit("wrong number of arguments for 'lpush' command");
        }
        return reply_err("wrong number of arguments for 'lpush' command");
    }
    let ghost m0 = store@;
    let ghost vs = views_of(command@).skip(2);
    let ghost k = command@[1]@;
    let mut n: usize = 0;
    let mut i: usize = 2;
    proof {
        assert(forall|j: int| 0 <= j < vs.len() ==> vs[j] == #[trigger] command@[j + 2]@);
        assert(vs.skip(0) =~= vs);
        assert(args.skip(1) =~= vs);
        assert(args[0] == k);
        assert(old(store).wqueue(k).skip(0) =~= old(store).wqueue(k));
    }
    while i < command.len()
        invariant
            store.wf(),
            2 <= i <= command@.len(),
            command@.len() >= 3,
            vs == views_of(command@).skip(2),
            k == command@[1]@,
            forall|j: int| 0 <= j < vs.len() ==> vs[j] == #[trigger] command@[j + 2]@,
            crate::store::lpush_all(m0, k, vs, now_ms).0 == crate::store::lpush_all(
                store@,
                k,
                vs.skip(i - 2),
                now_ms,
            ).0,
            vs.skip(i - 2).len() > 0 ==> crate::store::lpush_all(m0, k, vs, now_ms).1
                == crate::store::lpush_all(store@, k, vs.skip(i - 2), now_ms).1,
            vs.skip(i - 2).len() == 0 ==> crate::store::lpush_all(m0, k, vs, now_ms).1 == (
            n as nat),
            forall|k2: Seq<u8>| k2 != k ==> store.wqueue(k2) == old(store).wqueue(k2),
            exists|p: int|
                0 <= p <= old(store).wqueue(k).len() && store.wqueue(k) == old(store).wqueue(
                    k,
                ).skip(p),
            n > 0 && i > 2 && old(store).wqueue(k).len() > 0 ==> store.wqueue(k).len() < old(
                store,
            ).wqueue(k).len(),
        decreases command@.len() - i,
    {
        let ghost pre = store@;
        let ghost spre = *store;
        let ghost rest = vs.skip(i - 2);
        let key = crate::resp::copy_bytes(&command[1]);
        let value = crate::resp::copy_bytes(&command[i]);
        n = store.lpush(key, value, now_ms);
        proof {
            assert(rest.len() == vs.len() - (i - 2));
            assert(rest[0] == vs[i - 2]);
            assert(rest.drop_first() =~= vs.skip(i - 1));
            let ow = old(store).wqueue(k);
            let p0 = choose|p: int| 0 <= p <= ow.len() && spre.wqueue(k) == ow.skip(p);
            let q0 = choose|q: int|
                0 <= q <= spre.wqueue(k).len() && store.wqueue(k) == spre.wqueue(k).skip(q);
            assert(ow.skip(p0).skip(q0) =~= ow.skip(p0 + q0));
            assert(0 <= p0 + q0 <= ow.len() && store.wqueue(k) == ow.skip(p0 + q0));
            if n > 0 && ow.len() > 0 {
                if p0 == 0 {
                    assert(spre.wqueue(k) =~= ow);
                    assert(store.wqueue(k).len() < ow.len());
                } else {
                    assert(spre.wqueue(k).len() < ow.len());
                    assert(store.wqueue(k).len() <= spre.wqueue(k).len());
                }
            }
        }
        i = i + 1;
    }
    proof {
        assert(vs.skip(vs.len() as int).len() == 0);
    }
    Outcome::Reply(RespValue::Integer(n as i64))
}

/// Runs `LPOP`.
fn run_lpop(command: &Vec<Vec<u8>>, store: &mut Store, now_ms: u64) -> (r: Outcome)
    requires
        old(store).wf(),
        command@.len() >= 1,
    ensures
        final(store).wf(),
        final(store)@ == do_lpop(views_of(command@).skip(1), old(store)@, now_ms).0,
        r.deep() == do_lpop(views_of(command@).skip(1), old(store)@, now_ms).1,
        forall|k2: Seq<u8>| final(store).wqueue(k2) == old(store).wqueue(k2),
{
    let ghost args = views_of(command@).skip(1);
    proof {
        assert(forall|i: int|
            0 <= i < args.len() ==> args[i] == #[trigger] command@[i + 1]@);
    }
    if command.len() < 2 {
        proof {
            reveal_strlit("wrong number of arguments for 'lpop' command");
        }
        return reply_err("wrong number of arguments for 'lpop' command");
    }
    proof {
        assert(args[0] == command@[1]@);
        if command@.len() >= 3 {
            assert(args[1] == command@[2]@);
        }
    }
    let mut count: usize = 1;
    if command.len() >= 3 {
        let mut parsed: Option<usize> = None;
        match crate::num::parse_u128(&command[2]) {
            Some(v) => {
                if v <= usize::MAX as u128 {
                    parsed = Some(v as usize);
                }
            },
            None => {},
        }
        match parsed {
            Some(c) => {
                count = c;
            },
            None => {
                proof {
                    reveal_strlit("value is not an integer or out of range");
                }
                return reply_err("value is not an integer or out of range");
            },
        }
    }
    let ghost m0 = store@;
    let ghost k = command@[1]@;
    if count > 1 {
        let mut out: Vec<RespValue> = Vec::new();
        let mut done = false;
        let ghost mut gtaken: Seq<Seq<u8>> = Seq::empty();
        proof {
            assert(crate::resp::deep_list(out@) =~= bulks_of(gtaken));
            assert(gtaken + crate::store::lpop_many(store@, k, (count - 0) as nat, now_ms).1
                =~= crate::store::lpop_many(m0, k, count as nat, now_ms).1);
        }
        let mut j: usize = 0;
        while j < count && !done
            invariant
                store.wf(),
                j <= count,
                command@.len() >= 2,
                k == command@[1]@,
                crate::resp::deep_list(out@) == bulks_of(gtaken),
                forall|k2: Seq<u8>| store.wqueue(k2) == old(store).wqueue(k2),
                !done ==> {
                    &&& crate::store::lpop_many(m0, k, count as nat, now_ms).0
                        == crate::store::lpop_many(store@, k, (count - j) as nat, now_ms).0
                    &&& crate::store::lpop_many(m0, k, count as nat, now_ms).1 == gtaken
                        + crate::store::lpop_many(store@, k, (count - j) as nat, now_ms).1
                },
                done ==> {
                    &&& crate::store::lpop_many(m0, k, count as nat, now_ms).0 == store@
                    &&& crate::store::lpop_many(m0, k, count as nat, now_ms).1 == gtaken
                },
            decreases count - j, (if done { 0int } else { 1int }),
        {
            let ghost pre = store@;
            match store.lpop(&command[1], now_ms) {
                Some(v) => {
                    proof {
                        assert(crate::store::lpop_many(pre, k, (count - j) as nat, now_ms).1
                            == seq![v@] + crate::store::lpop_many(
                            store@,
                            k,
                            (count - j - 1) as nat,
                            now_ms,
                        ).1);
                        assert(gtaken + (seq![v@] + crate::store::lpop_many(
                            store@,
                            k,
                            (count - j - 1) as nat,
                            now_ms,
                        ).1) =~= gtaken.push(v@) + crate::store::lpop_many(
                            store@,
                            k,
                            (count - j - 1) as nat,
                            now_ms,
                        ).1);
                    }
                    let ghost prev_out = out@;
                    out.push(RespValue::BulkString(Some(v)));
                    proof {
                        crate::resp::lemma_deep_list_push(
                            prev_out,
                            RespValue::BulkString(Some(v)),
                        );
                        let gt_old = gtaken;
                        gtaken = gtaken.push(v@);
                        assert(bulks_of(gtaken) =~= bulks_of(gt_old).push(
                            RespV::BulkString(Some(v@)),
                        ));
                    }
                },
                None => {
                    proof {
                        assert(crate::store::lpop_many(pre, k, (count - j) as nat, now_ms).1
                            =~= Seq::<Seq<u8>>::empty());
                        assert(gtaken + Seq::<Seq<u8>>::empty() =~= gtaken);
                    }
                    done = true;
                },
            }
            j = j + 1;
        }
        proof {
            if !done {
                assert(crate::store::lpop_many(store@, k, 0, now_ms).1
                    =~= Seq::<Seq<u8>>::empty());
                assert(gtaken + Seq::<Seq<u8>>::empty() =~= gtaken);
            }
        }
        return Outcome::Reply(RespValue::Array(out));
    }
    match store.lpop(&command[1], now_ms) {
        Some(v) => Outcome::Reply(RespValue::BulkString(Some(v))),
        None => Outcome::Reply(RespValue::Null),
    }
}

/// Runs `BLPOP`: the immediate attempt, or the instruction to suspend.
fn run_blpop(command: &Vec<Vec<u8>>, store: &mut Store, now_ms: u64) -> (r: Outcome)
    requires
        old(store).wf(),
        command@.len() >= 1,
    ensures
        final(store).wf(),
        final(store)@ == do_blpop(views_of(command@).skip(1), old(store)@, now_ms).0,
        r.deep() == do_blpop(views_of(command@).skip(1), old(store)@, now_ms).1,
        forall|k2: Seq<u8>| final(store).wqueue(k2) == old(store).wqueue(k2),
{
    let ghost args = views_of(command@).skip(1);
    proof {
        assert(forall|i: int|
            0 <= i < args.len() ==> args[i] == #[trigger] command@[i + 1]@);
    }
    if command.len() < 3 {
        proof {
            reveal_strlit("wrong number of arguments for 'blpop' command");
        }
        return reply_err("wrong number of arguments for 'blpop' command");
    }
    let t = match parse_timeout(&command[2]) {
        Some(t) => t,
        None => {
            proof {
                reveal_strlit("timeout is not a float or out of range");
            }
            return reply_err("timeout is not a float or out of range");
        },
    };
    match store.lpop(&command[1], now_ms) {
        Some(v) => {
            let keycopy = crate::resp::copy_bytes(&command[1]);
            let mut items: Vec<RespValue> = Vec::new();
            items.push(RespValue::BulkString(Some(keycopy)));
            items.push(RespValue::BulkString(Some(v)));
            proof {
                crate::resp::lemma_deep_list(items@);
                assert(args[0] == command@[1]@);
                assert(crate::resp::deep_list(items@) =~= seq![
                    RespV::BulkString(Some(args[0])),
                    RespV::BulkString(Some(v@)),
                ]);
            }
            Outcome::Reply(RespValue::Array(items))
        },
        None => {
            proof {
                assert(args[0] == command@[1]@);
            }
            let keycopy = crate::resp::copy_bytes(&command[1]);
            let deadline: Option<u64> = if t.0 {
                None
            } else {
                Some(sat_add(now_ms, t.1))
            };
            Outcome::Block(keycopy, deadline)
        },
    }
}

/// Runs `XADD`.
fn run_xadd(command: &Vec<Vec<u8>>, store: &mut Store, now_ms: u64) -> (r: Outcome)
    requires
        old(store).wf(),
        command@.len() >= 1,
    ensures
        final(store).wf(),
        final(store)@ == do_xadd(views_of(command@).skip(1), old(store)@, now_ms).0,
        r.deep() == do_xadd(views_of(command@).skip(1), old(store)@, now_ms).1,
        forall|k2: Seq<u8>| final(store).wqueue(k2) == old(store).wqueue(k2),
{
    let ghost args = views_of(command@).skip(1);
    proof {
        assert(forall|i: int|
            0 <= i < args.len() ==> args[i] == #[trigger] command@[i + 1]@);
    }
    if command.len() < 4 {
        proof {
            reveal_strlit("wrong number of arguments for 'xadd' command");
        }
        return reply_err("wrong number of arguments for 'xadd' command");
    }
    if (command.len() - 3) % 2 == 1 {
        proof {
            reveal_strlit("syntax error");
        }
        return reply_err("syntax error");
    }
    let ghost fs = views_of(command@).skip(3);
    proof {
        assert(args.skip(2) =~= fs);
        assert(forall|j: int| 0 <= j < fs.len() ==> fs[j] == #[trigger] command@[j + 3]@);
        assert(fs.skip(0) =~= fs);
    }
    let mut fields: Vec<(Vec<u8>, Vec<u8>)> = Vec::new();
    let mut i: usize = 3;
    proof {
        assert(crate::stream::field_views(fields@) =~= Seq::<(Seq<u8>, Seq<u8>)>::empty());
        assert(crate::stream::field_views(fields@) + pair_up(fs.skip(0)) =~= pair_up(fs));
    }
    while i < command.len() - 1
        invariant
            3 <= i <= command@.len(),
            (i - 3) % 2 == 0,
            (command@.len() - 3) % 2 == 0,
            command@.len() >= 4,
            fs == views_of(command@).skip(3),
            forall|j: int| 0 <= j < fs.len() ==> fs[j] == #[trigger] command@[j + 3]@,
            pair_up(fs) == crate::stream::field_views(fields@) + pair_up(fs.skip(i - 3)),
        decreases command@.len() - i,
    {
        let ghost rest = fs.skip(i - 3);
        let f = crate::resp::copy_bytes(&command[i]);
        let v = crate::resp::copy_bytes(&command[i + 1]);
        let ghost prev = fields@;
        let ghost fv = f@;
        let ghost vv = v@;
        fields.push((f, v));
        proof {
            assert(rest.len() >= 2);
            assert(rest[0] == fs[i - 3] && rest[1] == fs[i - 2]);
            assert(rest.skip(2) =~= fs.skip(i - 1));
            assert(pair_up(rest) == seq![(rest[0], rest[1])] + pair_up(rest.skip(2)));
            assert(crate::stream::field_views(fields@) =~= crate::stream::field_views(prev).push(
                (fv, vv),
            ));
            assert(crate::stream::field_views(prev).push((fv, vv)) + pair_up(fs.skip(i - 1))
                =~= crate::stream::field_views(prev) + (seq![(fv, vv)] + pair_up(
                fs.skip(i - 1),
            )));
        }
        i = i + 2;
    }
    proof {
        assert(fs.skip(fs.len() as int).len() == 0);
        assert(pair_up(fs.skip(fs.len() as int)) =~= Seq::<(Seq<u8>, Seq<u8>)>::empty());
        assert(crate::stream::field_views(fields@) + Seq::<(Seq<u8>, Seq<u8>)>::empty()
            =~= crate::stream::field_views(fields@));
    }
    let key = crate::resp::copy_bytes(&command[1]);
    match store.xadd(key, &command[2], fields, now_ms) {
        Ok(id) => Outcome::Reply(RespValue::BulkString(Some(id.to_bytes()))),
        Err(e) => Outcome::Reply(RespValue::Error(e.message())),
    }
}

/// Runs `XRANGE`.
fn run_xrange(command: &Vec<Vec<u8>>, store: &mut Store, now_ms: u64) -> (r: Outcome)
    requires
        old(store).wf(),
        command@.len() >= 1,
    ensures
        final(store).wf(),
        final(store)@ == do_xrange(views_of(command@).skip(1), old(store)@, now_ms).0,
        r.deep() == do_xrange(views_of(command@).skip(1), old(store)@, now_ms).1,
        forall|k2: Seq<u8>| final(store).wqueue(k2) == old(store).wqueue(k2),
{
    let ghost args = views_of(command@).skip(1);
    proof {
        assert(forall|i: int|
            0 <= i < args.len() ==> args[i] == #[trigger] command@[i + 1]@);
    }
    if command.len() < 4 {
        proof {
            reveal_strlit("wrong number of arguments for 'xrange' command");
        }
        return reply_err("wrong number of arguments for 'xrange' command");
    }
    match store.xrange(&command[1], &command[2], &command[3], now_ms) {
        Err(e) => Outcome::Reply(RespValue::Error(e.message())),
        Ok(v) => {
            let entries = v.0;
            let ghost ev = crate::stream::entry_views(entries@);
            let mut out: Vec<RespValue> = Vec::new();
            let mut i: usize = 0;
            proof {
                assert(crate::resp::deep_list(out@) =~= entries_reply(ev).take(0));
            }
            while i < entries.len()
                invariant
                    i <= entries@.len(),
                    ev == crate::stream::entry_views(entries@),
                    crate::resp::deep_list(out@) == entries_reply(ev).take(i as int),
                decreases entries@.len() - i,
            {
                let e = &entries[i];
                let idb = e.id.to_bytes();
                let ghost efv = e@.fields;
                let mut flat: Vec<RespValue> = Vec::new();
                let mut j: usize = 0;
                proof {
                    assert(efv.skip(0) =~= efv);
                    assert(crate::resp::deep_list(flat@) =~= Seq::<RespV>::empty());
                    assert(crate::resp::deep_list(flat@) + flat_fields(efv.skip(0))
                        =~= flat_fields(efv));
                    assert(forall|q: int|
                        0 <= q < e.fields@.len() ==> (#[trigger] efv[q]) == (
                        e.fields@[q].0@,
                        e.fields@[q].1@,
                    ));
                }
                while j < e.fields.len()
                    invariant
                        j <= e.fields@.len(),
                        efv == e@.fields,
                        e@.fields.len() == e.fields@.len(),
                        forall|q: int|
                            0 <= q < e.fields@.len() ==> (#[trigger] efv[q]) == (
                            e.fields@[q].0@,
                            e.fields@[q].1@,
                        ),
                        flat_fields(efv) == crate::resp::deep_list(flat@) + flat_fields(
                            efv.skip(j as int),
                        ),
                    decreases e.fields@.len() - j,
                {
                    let ghost rest = efv.skip(j as int);
                    let fb = crate::resp::copy_bytes(&e.fields[j].0);
                    let vb = crate::resp::copy_bytes(&e.fields[j].1);
                    let ghost prev = flat@;
                    flat.push(RespValue::BulkString(Some(fb)));
                    let ghost mid = flat@;
                    flat.push(RespValue::BulkString(Some(vb)));
                    proof {
                        crate::resp::lemma_deep_list_push(
                            prev,
                            RespValue::BulkString(Some(fb)),
                        );
                        crate::resp::lemma_deep_list_push(
                            mid,
                            RespValue::BulkString(Some(vb)),
                        );
                        assert(rest[0] == efv[j as int]);
                        assert(rest.drop_first() =~= efv.skip(j as int + 1));
                        assert(flat_fields(rest) == seq![
                            RespV::BulkString(Some(rest[0].0)),
                            RespV::BulkString(Some(rest[0].1)),
                        ] + flat_fields(rest.drop_first()));
                        assert(crate::resp::deep_list(flat@) =~= crate::resp::deep_list(prev)
                            + seq![
                            RespV::BulkString(Some(rest[0].0)),
                            RespV::BulkString(Some(rest[0].1)),
                        ]);
                        assert((crate::resp::deep_list(prev) + seq![
                            RespV::BulkString(Some(rest[0].0)),
                            RespV::BulkString(Some(rest[0].1)),
                        ]) + flat_fields(efv.skip(j as int + 1)) =~= crate::resp::deep_list(prev)
                            + flat_fields(rest));
                    }
                    j = j + 1;
                }
                proof {
                    assert(efv.skip(efv.len() as int).len() == 0);
                    assert(flat_fields(efv.skip(efv.len() as int)) =~= Seq::<RespV>::empty());
                    assert(crate::resp::deep_list(flat@) + Seq::<RespV>::empty()
                        =~= crate::resp::deep_list(flat@));
                }
                let mut pairvec: Vec<RespValue> = Vec::new();
                pairvec.push(RespValue::BulkString(Some(idb)));
                pairvec.push(RespValue::Array(flat));
                let ghost prev_out = out@;
                proof {
                    crate::resp::lemma_deep_list(pairvec@);
                    assert(crate::resp::deep_list(pairvec@) =~= seq![
                        RespV::BulkString(Some(id_bytes(e@.id))),
                        RespV::Array(flat_fields(efv)),
                    ]);
                    assert(RespValue::Array(pairvec).deep() == entry_reply(ev[i as int]));
                }
                out.push(RespValue::Array(pairvec));
                proof {
                    crate::resp::lemma_deep_list_push(prev_out, RespValue::Array(pairvec));
                    assert(crate::resp::deep_list(out@) =~= entries_reply(ev).take(i as int + 1));
                }
                i = i + 1;
            }
            proof {
                assert(entries_reply(ev).take(entries@.len() as int) =~= entries_reply(ev));
            }
            Outcome::Reply(RespValue::Array(out))
        },
    }
}

/// Parses a fractional-second timeout.
fn parse_timeout(s: &Vec<u8>) -> (r: Option<(bool, u64)>)
    ensures
        r == parse_timeout_spec(s@),
{
    let from: usize = if s.len() > 0 && s[0] == 43 {
        1
    } else {
        0
    };
    proof {
        assert(crate::num::strip_plus(s@) =~= s@.skip(from as int));
    }
    let ghost d = s@.skip(from as int);
    let n = s.len();
    let mut dot: Option<usize> = None;
    let mut i: usize = from;
    while i < n
        invariant
            from <= i <= n,
            n == s@.len(),
            d == s@.skip(from as int),
            match dot {
                Some(p) => {
                    &&& from <= p < i
                    &&& s@[p as int] == 46
                    &&& forall|q: int| from <= q < p ==> s@[q] != 46
                },
                None => forall|q: int| from <= q < i ==> s@[q] != 46,
            },
        decreases n - i,
    {
        if s[i] == 46 && dot.is_none() {
            dot = Some(i);
        }
        i = i + 1;
    }
    match dot {
        None => {
            proof {
                assert(forall|q: int| 0 <= q < d.len() ==> d[q] == s@[q + from]);
                lemma_find_dot_none(d);
            }
            match crate::num::parse_u64(&crate::resp::copy_bytes(s)) {
                Some(v) => {
                    proof {
                        assert(crate::num::strip_plus(s@) == d);
                    }
                    Some((v == 0, sat_mul(v)))
                },
                None => None,
            }
        },
        Some(p) => {
            proof {
                assert(forall|q: int| 0 <= q < d.len() ==> d[q] == s@[q + from]);
                lemma_find_dot_at(d, p - from);
                assert(d.take(p - from) =~= s@.subrange(from as int, p as int));
                assert(d.skip(p - from + 1) =~= s@.skip(p as int + 1));
            }
            let ip = crate::resp::copy_range(s, from, p);
            let fp = crate::resp::copy_range(s, p + 1, n);
            let ipval: u64 = if ip.len() == 0 {
                0
            } else {
                match parse_all_digits_u64(&ip) {
                    Some(v) => v,
                    None => {
                        return None;
                    },
                }
            };
            if !check_all_digits(&fp) {
                return None;
            }
            if ip.len() == 0 && fp.len() == 0 {
                return None;
            }
            let f3: u64 = if fp.len() >= 3 {
                digits_value3(&fp, 3)
            } else if fp.len() == 2 {
                proof {
                    assert(fp@.take(2) =~= fp@);
                }
                let a = digits_value3(&fp, 2);
                a * 10
            } else if fp.len() == 1 {
                proof {
                    assert(fp@.take(1) =~= fp@);
                }
                let a = digits_value3(&fp, 1);
                a * 100
            } else {
                0
            };
            proof {
                assert(f3 == frac_ms(d.skip(p - from + 1)));
            }
            let zero = ipval == 0 && frac_all_zero(&fp);
            Some((zero, sat_add(sat_mul(ipval), f3)))
        },
    }
}

/// Parses a string that must be wholly digits into a 64-bit value; empty
/// strings and out-of-range values yield nothing.
fn parse_all_digits_u64(s: &Vec<u8>) -> (r: Option<u64>)
    ensures
        match r {
            Some(v) => s@.len() > 0 && crate::num::all_digits(s@) && digits_val(s@) == v as nat
                && digits_val(s@) <= u64::MAX as nat,
            None => s@.len() == 0 || !crate::num::all_digits(s@) || digits_val(s@)
                > u64::MAX as nat,
        },
{
    if s.len() == 0 {
        return None;
    }
    if s[0] == 43 {
        return None;
    }
    proof {
        assert(crate::num::strip_plus(s@) =~= s@);
    }
    match parse_u64(s) {
        Some(v) => Some(v),
        None => None,
    }
}

/// True when the string is wholly digits.
fn check_all_digits(s: &Vec<u8>) -> (r: bool)
    ensures
        r == crate::num::all_digits(s@),
{
    let mut i: usize = 0;
    while i < s.len()
        invariant
            i <= s@.len(),
            forall|j: int| 0 <= j < i ==> crate::num::is_digit(#[trigger] s@[j]),
        decreases s@.len() - i,
    {
        if s[i] < 48 || s[i] > 57 {
            return false;
        }
        i = i + 1;
    }
    true
}

/// The value of the first `k` digits of a digit string.
fn digits_value3(s: &Vec<u8>, k: usize) -> (r: u64)
    requires
        crate::num::all_digits(s@),
        k <= s@.len(),
        k <= 3,
    ensures
        r as nat == digits_val(s@.take(k as int)),
        r < 1000,
        k <= 2 ==> r < 100,
        k <= 1 ==> r < 10,
{
    let mut acc: u64 = 0;
    let mut i: usize = 0;
    while i < k
        invariant
            i <= k <= s@.len(),
            k <= 3,
            crate::num::all_digits(s@),
            acc as nat == digits_val(s@.take(i as int)),
            acc < (if i == 0 {
                1u64
            } else if i == 1 {
                10u64
            } else if i == 2 {
                100u64
            } else {
                1000u64
            }),
        decreases k - i,
    {
        proof {
            crate::num::lemma_digits_val_extend(s@, i as int);
        }
        acc = acc * 10 + ((s[i] - 48) as u64);
        i = i + 1;
    }
    acc
}

/// True when every digit of the string is zero.
fn frac_all_zero(s: &Vec<u8>) -> (r: bool)
    requires
        crate::num::all_digits(s@),
    ensures
        r == (digits_val(s@) == 0),
{
    let mut i: usize = 0;
    while i < s.len()
        invariant
            i <= s@.len(),
            crate::num::all_digits(s@),
            digits_val(s@.take(i as int)) == 0,
        decreases s@.len() - i,
    {
        proof {
            crate::num::lemma_digits_val_extend(s@, i as int);
        }
        if s[i] != 48 {
            proof {
                crate::num::lemma_digits_val_prefix_le(s@, i as int + 1);
            }
            return false;
        }
        i = i + 1;
    }
    proof {
        assert(s@.take(s@.len() as int) =~= s@);
    }
    true
}

/// A `.` at `j` with none before it is the first.
proof fn lemma_find_dot_at(s: Seq<u8>, j: int)
    requires
        0 <= j < s.len(),
        s[j] == 46,
        forall|k: int| 0 <= k < j ==> s[k] != 46,
    ensures
        find_dot(s) == Some(j),
    decreases j,
{
    if j > 0 {
        let t = s.drop_first();
        assert(forall|k: int| 0 <= k < t.len() ==> t[k] == s[k + 1]);
        lemma_find_dot_at(t, j - 1);
    }
}

/// A string without `.` has no first one.
proof fn lemma_find_dot_none(s: Seq<u8>)
    requires
        forall|k: int| 0 <= k < s.len() ==> s[k] != 46,
    ensures
        find_dot(s) is None,
    decreases s.len(),
{
    if s.len() > 0 {
        let t = s.drop_first();
        assert(forall|k: int| 0 <= k < t.len() ==> t[k] == s[k + 1]);
        lemma_find_dot_none(t);
    }
}

/// Dispatches one decoded request: validates it, runs it against the
/// store, and produces a reply or an instruction to block.
pub fn handler(command: Vec<Vec<u8>>, store: &mut Store, now_ms: u64) -> (r: Outcome)
    requires
        old(store).wf(),
    ensures
        final(store).wf(),
        final(store)@ == dispatch_spec(views_of(command@), old(store)@, now_ms).0,
        r.deep() == dispatch_spec(views_of(command@), old(store)@, now_ms).1,
        queue_effect(views_of(command@), now_ms, *old(store), *final(store)),
{
    let ghost cv = views_of(command@);
    if command.len() == 0 {
        proof {
            reveal_strlit("unknown command");
        }
        return reply_err("unknown command");
    }
    proof {
        assert(cv[0] == command@[0]@);
    }
    let c = classify(&command[0]);
    match c {
        Cmd::Ping => {
            proof {
                reveal_strlit("PONG");
            }
            Outcome::Reply(RespValue::SimpleString(str_bytes("PONG")))
        },
        Cmd::Echo => {
            if command.len() < 2 {
                proof {
                    reveal_strlit("wrong number of arguments for 'echo' command");
                }
                reply_err("wrong number of arguments for 'echo' command")
            } else {
                proof {
                    assert(cv.skip(1)[0] == command@[1]@);
                }
                Outcome::Reply(RespValue::SimpleString(crate::resp::copy_bytes(&command[1])))
            }
        },
        Cmd::SetCmd => run_set(&command, store, now_ms),
        Cmd::Get => run_get(&command, store, now_ms),
        Cmd::Rpush => run_rpush(&command, store, now_ms),
        Cmd::Lpush => run_lpush(&command, store, now_ms),
        Cmd::Lpop => run_lpop(&command, store, now_ms),
        Cmd::Blpop => run_blpop(&command, store, now_ms),
        Cmd::Lrange => run_lrange(&command, store, now_ms),
        Cmd::Llen => run_llen(&command, store, now_ms),
        Cmd::Type => run_type(&command, store, now_ms),
        Cmd::Xadd => run_xadd(&command, store, now_ms),
        Cmd::Xrange => run_xrange(&command, store, now_ms),
        Cmd::Unknown => {
            proof {
                reveal_strlit("unknown command");
            }
            reply_err("unknown command")
        },
    }
}

} // verus!
