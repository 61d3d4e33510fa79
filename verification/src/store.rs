//! The keyspace store: a map from byte-string keys to typed records with
//! lazy expiration, list operations, stream appends and range reads, and
//! per-key wait queues for blocking consumers.
use vstd::prelude::*;
use crate::assoc::{keys_distinct, lookup, lemma_lookup_at, lemma_lookup_none, lemma_map_after_push, lemma_map_after_remove};
use crate::bytes_of_str;
use crate::record::{RecV, RecordData, RecordType, RecordV, type_name_of};
use crate::resp::views_of;
use crate::str_bytes;
use crate::stream::{
    entry_views, xadd_spec, xrange_spec, EntryV, StramValue, StreamEntryID, StreamRecord,
    StreamRecordError, StreamV,
};

verus! {

/// The map the store's association list denotes.
pub open spec fn store_map(s: Seq<(Vec<u8>, RecordData)>) -> Map<Seq<u8>, RecordV> {
    crate::assoc::assoc_map(s)
}

/// What an error of a store operation reports.
#[derive(Debug, Clone, Copy, PartialEq, Eq)]
pub enum StoreError {
    WrongType,
    Stream(StreamRecordError),
}

impl StoreError {
    /// The text reported for this error.
    pub open spec fn message_spec(self) -> Seq<u8> {
        match self {
            StoreError::WrongType => bytes_of_str(
                "Operation against a key holding the wrong kind of value"@,
            ),
            StoreError::Stream(e) => e.message_spec(),
        }
    }

    /// Renders the error text.
    pub fn message(&self) -> (r: Vec<u8>)
        ensures
            r@ == self.message_spec(),
    {
        match self {
            StoreError::WrongType => {
                proof {
                    reveal_strlit("Operation against a key holding the wrong kind of value");
                }
                str_bytes("Operation against a key holding the wrong kind of value")
            },
            StoreError::Stream(e) => e.message(),
        }
    }
}

/// Discards the record of `k` when it has expired by `now_ms`: what any
/// operation that touches `k` does first, making expired records
/// observationally absent.
pub open spec fn drop_expired(m: Map<Seq<u8>, RecordV>, k: Seq<u8>, now_ms: u64) -> Map<
    Seq<u8>,
    RecordV,
> {
    if m.contains_key(k) && m[k].expired(now_ms) {
        m.remove(k)
    } else {
        m
    }
}

/// What `get` returns: the string bound to `k`, unless the key is absent,
/// expired, or of another type.
pub open spec fn get_spec(m: Map<Seq<u8>, RecordV>, k: Seq<u8>, now_ms: u64) -> (
    Map<Seq<u8>, RecordV>,
    Option<Seq<u8>>,
) {
    let m1 = drop_expired(m, k, now_ms);
    if m1.contains_key(k) {
        match m1[k].rec {
            RecV::Str(s) => (m1, Some(s)),
            _ => (m1, None),
        }
    } else {
        (m1, None)
    }
}

/// What `set` does: binds `k` to the string `v` with the given expiration,
/// whatever was there before.
pub open spec fn set_spec(
    m: Map<Seq<u8>, RecordV>,
    k: Seq<u8>,
    v: Seq<u8>,
    exp: Option<u64>,
) -> Map<Seq<u8>, RecordV> {
    m.insert(k, RecordV { rec: RecV::Str(v), exp })
}

/// The store: records keyed by byte strings, and the registered wake
/// handles of blocked consumers, in registration order, each under the key
/// it waits on.
pub struct Store {
    entries: Vec<(Vec<u8>, RecordData)>,
    waiters: Vec<(Vec<u8>, tokio::sync::oneshot::Sender<()>)>,
}

impl View for Store {
    type V = Map<Seq<u8>, RecordV>;

    closed spec fn view(&self) -> Map<Seq<u8>, RecordV> {
        store_map(self.entries@)
    }
}

impl Store {
    /// The store's structural invariant: keys are bound at most once and
    /// every stream is well formed.
    pub closed spec fn wf(self) -> bool {
        &&& keys_distinct(self.entries@)
        &&& forall|i: int|
            0 <= i < self.entries@.len() ==> (#[trigger] self.entries@[i]).1@.wf()
    }

    /// A fresh, empty store.
    pub fn new() -> (r: Store)
        ensures
            r.wf(),
            r@ == Map::<Seq<u8>, RecordV>::empty(),
    {
        let r = Store { entries: Vec::new(), waiters: Vec::new() };
        proof {
            assert(r@ =~= Map::<Seq<u8>, RecordV>::empty());
        }
        r
    }

    /// The position of `key` among the records, if bound.
    fn find(&self, key: &Vec<u8>) -> (r: Option<usize>)
        requires
            self.wf(),
        ensures
            match r {
                Some(i) => {
                    &&& i < self.entries@.len()
                    &&& self.entries@[i as int].0@ == key@
                    &&& lookup(self.entries@, key@) == Some(self.entries@[i as int].1@)
                    &&& self@.contains_key(key@)
                    &&& self@[key@] == self.entries@[i as int].1@
                },
                None => !self@.contains_key(key@) && lookup(self.entries@, key@) is None,
            },
    {
        let mut i: usize = 0;
        while i < self.entries.len()
            invariant
                self.wf(),
                i <= self.entries@.len(),
                forall|j: int| 0 <= j < i ==> (#[trigger] self.entries@[j]).0@ != key@,
            decreases self.entries@.len() - i,
        {
            if bytes_eq(&self.entries[i].0, key) {
                proof {
                    lemma_lookup_at(self.entries@, key@, i as int);
                }
                return Some(i);
            }
            i = i + 1;
        }
        proof {
            lemma_lookup_none(self.entries@, key@);
        }
        None
    }
}

/// What `rpush` does: creates a missing key as a one-element list, appends
/// to an existing list, and leaves any other type alone returning zero.
pub open spec fn rpush_spec(m: Map<Seq<u8>, RecordV>, k: Seq<u8>, v: Seq<u8>, now_ms: u64) -> (
    Map<Seq<u8>, RecordV>,
    nat,
) {
    let m1 = drop_expired(m, k, now_ms);
    if !m1.contains_key(k) {
        (m1.insert(k, RecordV { rec: RecV::List(seq![v]), exp: None }), 1)
    } else {
        match m1[k].rec {
            RecV::List(l) => (
                m1.insert(k, RecordV { rec: RecV::List(l.push(v)), exp: m1[k].exp }),
                l.len() + 1,
            ),
            _ => (m1, 0),
        }
    }
}

/// What `lpush` does: as `rpush`, prepending.
pub open spec fn lpush_spec(m: Map<Seq<u8>, RecordV>, k: Seq<u8>, v: Seq<u8>, now_ms: u64) -> (
    Map<Seq<u8>, RecordV>,
    nat,
) {
    let m1 = drop_expired(m, k, now_ms);
    if !m1.contains_key(k) {
        (m1.insert(k, RecordV { rec: RecV::List(seq![v]), exp: None }), 1)
    } else {
        match m1[k].rec {
            RecV::List(l) => (
                m1.insert(k, RecordV { rec: RecV::List(seq![v] + l), exp: m1[k].exp }),
                l.len() + 1,
            ),
            _ => (m1, 0),
        }
    }
}

/// What `lpop` does: pops the head of a non-empty list; missing keys,
/// other types and empty lists yield nothing, and the empty list is kept.
pub open spec fn lpop_spec(m: Map<Seq<u8>, RecordV>, k: Seq<u8>, now_ms: u64) -> (
    Map<Seq<u8>, RecordV>,
    Option<Seq<u8>>,
) {
    let m1 = drop_expired(m, k, now_ms);
    if m1.contains_key(k) {
        match m1[k].rec {
            RecV::List(l) => if l.len() > 0 {
                (
                    m1.insert(k, RecordV { rec: RecV::List(l.drop_first()), exp: m1[k].exp }),
                    Some(l.first()),
                )
            } else {
                (m1, None)
            },
            _ => (m1, None),
        }
    } else {
        (m1, None)
    }
}

/// The inclusive bounds a range request clamps to against a list of length
/// `len`: negative indices count from the end, the start is raised to zero
/// and the stop lowered to the last position.
pub open spec fn clamp_range(len: int, start: int, stop: int) -> (int, int) {
    let s0 = if start < 0 {
        len + start
    } else {
        start
    };
    let s1 = if s0 < 0 {
        0
    } else {
        s0
    };
    let e0 = if stop < 0 {
        len + stop
    } else {
        stop
    };
    let e1 = if e0 > len - 1 {
        len - 1
    } else {
        e0
    };
    (s1, e1)
}

/// What `lrange` returns: the clamped inclusive slice of the list, empty
/// when the normalised range is empty or the key holds no list.
pub open spec fn lrange_spec(
    m: Map<Seq<u8>, RecordV>,
    k: Seq<u8>,
    start: int,
    stop: int,
    now_ms: u64,
) -> (Map<Seq<u8>, RecordV>, Seq<Seq<u8>>) {
    let m1 = drop_expired(m, k, now_ms);
    if m1.contains_key(k) {
        match m1[k].rec {
            RecV::List(l) => {
                let (s1, e1) = clamp_range(l.len() as int, start, stop);
                if s1 > e1 {
                    (m1, Seq::empty())
                } else {
                    (m1, l.subrange(s1, e1 + 1))
                }
            },
            _ => (m1, Seq::empty()),
        }
    } else {
        (m1, Seq::empty())
    }
}

/// What `llen` returns: the length of the list, zero otherwise.
pub open spec fn llen_spec(m: Map<Seq<u8>, RecordV>, k: Seq<u8>, now_ms: u64) -> (
    Map<Seq<u8>, RecordV>,
    nat,
) {
    let m1 = drop_expired(m, k, now_ms);
    if m1.contains_key(k) {
        match m1[k].rec {
            RecV::List(l) => (m1, l.len()),
            _ => (m1, 0),
        }
    } else {
        (m1, 0)
    }
}

/// What `type_of` reports: the name of the bound record's type, `none` for
/// absent (or expired) keys.
pub open spec fn type_spec(m: Map<Seq<u8>, RecordV>, k: Seq<u8>, now_ms: u64) -> (
    Map<Seq<u8>, RecordV>,
    Seq<char>,
) {
    let m1 = drop_expired(m, k, now_ms);
    if m1.contains_key(k) {
        (m1, type_name_of(m1[k].rec))
    } else {
        (m1, "none"@)
    }
}

/// What a store append to a stream does: a missing key is created as an
/// empty stream (and kept even when the identifier is rejected), a key of
/// another type is an error, and the stream append itself follows the
/// stream's own rule.
pub open spec fn store_xadd_spec(
    m: Map<Seq<u8>, RecordV>,
    k: Seq<u8>,
    idtok: Seq<u8>,
    fields: Seq<(Seq<u8>, Seq<u8>)>,
    now_ms: u64,
) -> (Map<Seq<u8>, RecordV>, Result<StreamEntryID, StoreError>) {
    let m1 = drop_expired(m, k, now_ms);
    if m1.contains_key(k) && !(m1[k].rec is Stream) {
        (m1, Err(StoreError::WrongType))
    } else {
        let st = if m1.contains_key(k) {
            m1[k].rec->Stream_0
        } else {
            StreamV { entries: Seq::empty(), last: crate::stream::id_zero() }
        };
        let exp = if m1.contains_key(k) {
            m1[k].exp
        } else {
            None
        };
        let r = xadd_spec(st, idtok, fields, now_ms as u128);
        let m2 = m1.insert(k, RecordV { rec: RecV::Stream(r.0), exp });
        match r.1 {
            Ok(id) => (m2, Ok(id)),
            Err(e) => (m2, Err(StoreError::Stream(e))),
        }
    }
}

/// What a store range read of a stream returns: the stream's entries in
/// the requested range, an empty sequence for a missing key, an error for
/// a key of another type.
pub open spec fn store_xrange_spec(
    m: Map<Seq<u8>, RecordV>,
    k: Seq<u8>,
    start: Seq<u8>,
    end: Seq<u8>,
    now_ms: u64,
) -> (Map<Seq<u8>, RecordV>, Result<Seq<EntryV>, StoreError>) {
    let m1 = drop_expired(m, k, now_ms);
    if m1.contains_key(k) {
        match m1[k].rec {
            RecV::Stream(st) => (
                m1,
                match xrange_spec(st, start, end) {
                    Ok(es) => Ok(es),
                    Err(e) => Err(StoreError::Stream(e)),
                },
            ),
            _ => (m1, Err(StoreError::WrongType)),
        }
    } else {
        (m1, Ok(Seq::empty()))
    }
}

/// The wake handles registered under `k`, in registration order.
pub open spec fn waiter_queue(
    s: Seq<(Vec<u8>, tokio::sync::oneshot::Sender<()>)>,
    k: Seq<u8>,
) -> Seq<tokio::sync::oneshot::Sender<()>>
    decreases s.len(),
{
    if s.len() == 0 {
        Seq::empty()
    } else {
        let rest = waiter_queue(s.drop_first(), k);
        if s.first().0@ == k {
            seq![s.first().1] + rest
        } else {
            rest
        }
    }
}

/// A queue splits over concatenation of registration lists.
proof fn lemma_wq_concat(
    a: Seq<(Vec<u8>, tokio::sync::oneshot::Sender<()>)>,
    b: Seq<(Vec<u8>, tokio::sync::oneshot::Sender<()>)>,
    k: Seq<u8>,
)
    ensures
        waiter_queue(a + b, k) == waiter_queue(a, k) + waiter_queue(b, k),
    decreases a.len(),
{
    if a.len() == 0 {
        assert(a + b =~= b);
        assert(waiter_queue(a, k) + waiter_queue(b, k) =~= waiter_queue(b, k));
    } else {
        assert((a + b).first() == a.first());
        assert((a + b).drop_first() =~= a.drop_first() + b);
        lemma_wq_concat(a.drop_first(), b, k);
        if a.first().0@ == k {
            assert(seq![a.first().1] + (waiter_queue(a.drop_first(), k) + waiter_queue(b, k))
                =~= (seq![a.first().1] + waiter_queue(a.drop_first(), k)) + waiter_queue(b, k));
        }
    }
}

/// A registration list without `k` contributes an empty queue.
proof fn lemma_wq_none(s: Seq<(Vec<u8>, tokio::sync::oneshot::Sender<()>)>, k: Seq<u8>)
    requires
        forall|j: int| 0 <= j < s.len() ==> (#[trigger] s[j]).0@ != k,
    ensures
        waiter_queue(s, k) == Seq::<tokio::sync::oneshot::Sender<()>>::empty(),
    decreases s.len(),
{
    if s.len() > 0 {
        assert(forall|j: int|
            0 <= j < s.drop_first().len() ==> (#[trigger] s.drop_first()[j]).0@ != k);
        lemma_wq_none(s.drop_first(), k);
    }
}

/// Removing the first pair registered under `k` pops the head of `k`'s
/// queue and leaves every other queue unchanged.
proof fn lemma_wq_remove_first_match(
    s: Seq<(Vec<u8>, tokio::sync::oneshot::Sender<()>)>,
    k: Seq<u8>,
    i: int,
)
    requires
        0 <= i < s.len(),
        s[i].0@ == k,
        forall|j: int| 0 <= j < i ==> (#[trigger] s[j]).0@ != k,
    ensures
        waiter_queue(s, k).len() > 0,
        waiter_queue(s.remove(i), k) == waiter_queue(s, k).drop_first(),
        forall|k2: Seq<u8>| k2 != k ==> waiter_queue(s.remove(i), k2) == waiter_queue(s, k2),
{
    let pre = s.take(i);
    let suf = s.skip(i + 1);
    let mid = seq![s[i]];
    assert(s =~= pre + (mid + suf));
    assert(s.remove(i) =~= pre + suf);
    assert((mid + suf).first() == s[i]);
    assert((mid + suf).drop_first() =~= suf);
    assert(forall|j: int| 0 <= j < pre.len() ==> (#[trigger] pre[j]).0@ != k);
    lemma_wq_none(pre, k);
    lemma_wq_concat(pre, mid + suf, k);
    lemma_wq_concat(pre, suf, k);
    assert(waiter_queue(mid + suf, k) == seq![s[i].1] + waiter_queue(suf, k));
    assert(waiter_queue(s, k) =~= seq![s[i].1] + waiter_queue(suf, k));
    assert(waiter_queue(s, k).drop_first() =~= waiter_queue(suf, k));
    assert(waiter_queue(s.remove(i), k) =~= waiter_queue(suf, k));
    assert forall|k2: Seq<u8>| k2 != k implies waiter_queue(s.remove(i), k2) == waiter_queue(
        s,
        k2,
    ) by {
        lemma_wq_concat(pre, mid + suf, k2);
        lemma_wq_concat(pre, suf, k2);
        assert(waiter_queue(mid + suf, k2) == waiter_queue(suf, k2));
        assert(waiter_queue(s.remove(i), k2) =~= waiter_queue(s, k2));
    }
}

/// Pushing several values in turn at the tail: the map after all pushes,
/// and the length the last push reported (zero when no value was pushed).
pub open spec fn rpush_all(m: Map<Seq<u8>, RecordV>, k: Seq<u8>, vs: Seq<Seq<u8>>, now_ms: u64) -> (
    Map<Seq<u8>, RecordV>,
    nat,
)
    decreases vs.len(),
{
    if vs.len() == 0 {
        (m, 0)
    } else if vs.len() == 1 {
        rpush_spec(m, k, vs[0], now_ms)
    } else {
        let r = rpush_spec(m, k, vs[0], now_ms);
        rpush_all(r.0, k, vs.drop_first(), now_ms)
    }
}

/// Pushing several values in turn at the head, as `rpush_all`.
pub open spec fn lpush_all(m: Map<Seq<u8>, RecordV>, k: Seq<u8>, vs: Seq<Seq<u8>>, now_ms: u64) -> (
    Map<Seq<u8>, RecordV>,
    nat,
)
    decreases vs.len(),
{
    if vs.len() == 0 {
        (m, 0)
    } else if vs.len() == 1 {
        lpush_spec(m, k, vs[0], now_ms)
    } else {
        let r = lpush_spec(m, k, vs[0], now_ms);
        lpush_all(r.0, k, vs.drop_first(), now_ms)
    }
}

/// Popping up to `c` heads in turn: the values that came out, in order,
/// stopping early when the list runs dry.
pub open spec fn lpop_many(m: Map<Seq<u8>, RecordV>, k: Seq<u8>, c: nat, now_ms: u64) -> (
    Map<Seq<u8>, RecordV>,
    Seq<Seq<u8>>,
)
    decreases c,
{
    if c == 0 {
        (m, Seq::empty())
    } else {
        let r = lpop_spec(m, k, now_ms);
        match r.1 {
            Some(v) => {
                let r2 = lpop_many(r.0, k, (c - 1) as nat, now_ms);
                (r2.0, seq![v] + r2.1)
            },
            None => (r.0, Seq::empty()),
        }
    }
}

impl Store {
    /// Binds `key` to the string `value`, with the given absolute
    /// expiration, whatever the key held before.
    pub fn set(&mut self, key: Vec<u8>, value: Vec<u8>, expiration: Option<u64>)
        requires
            old(self).wf(),
        ensures
            final(self).wf(),
            final(self)@ == set_spec(old(self)@, key@, value@, expiration),
            forall|k2: Seq<u8>| final(self).wqueue(k2) == old(self).wqueue(k2),
    {
        let ghost m0 = self@;
        let ghost s0 = self.entries@;
        match self.find(&key) {
            Some(i) => {
                self.entries.remove(i);
                proof {
                    lemma_map_after_remove(s0, i as int);
                }
            },
            None => {},
        }
        let ghost s1 = self.entries@;
        let rec = RecordData::new(RecordType::Str(value), expiration);
        proof {
            assert(!self@.contains_key(key@));
            assert(lookup(s1, key@) is None);
        }
        self.entries.push((key, rec));
        proof {
            lemma_map_after_push(s1, (key, rec));
            assert(self@ =~= set_spec(m0, key@, value@, expiration));
        }
    }

    /// The string bound to `key`, unless the key is absent, expired, or of
    /// another type; an expired record is discarded.
    pub fn get(&mut self, key: &Vec<u8>, now_ms: u64) -> (r: Option<Vec<u8>>)
        requires
            old(self).wf(),
        ensures
            final(self).wf(),
            final(self)@ == get_spec(old(self)@, key@, now_ms).0,
            match r {
                Some(v) => get_spec(old(self)@, key@, now_ms).1 == Some(v@),
                None => get_spec(old(self)@, key@, now_ms).1 is None,
            },
            forall|k2: Seq<u8>| final(self).wqueue(k2) == old(self).wqueue(k2),
    {
        let ghost s0 = self.entries@;
        match self.find(key) {
            None => None,
            Some(i) => {
                if self.entries[i].1.is_expired(now_ms) {
                    self.entries.remove(i);
                    proof {
                        lemma_map_after_remove(s0, i as int);
                    }
                    None
                } else {
                    match &self.entries[i].1.record {
                        RecordType::Str(s) => Some(crate::resp::copy_bytes(s)),
                        _ => None,
                    }
                }
            },
        }
    }

    /// Appends `value` at the tail of the list at `key`, creating a missing
    /// key as a fresh list, then wakes one waiting consumer; a key of
    /// another type is left alone and reported as length zero.
    pub fn rpush(&mut self, key: Vec<u8>, value: Vec<u8>, now_ms: u64) -> (n: usize)
        requires
            old(self).wf(),
        ensures
            final(self).wf(),
            final(self)@ == rpush_spec(old(self)@, key@, value@, now_ms).0,
            n as nat == rpush_spec(old(self)@, key@, value@, now_ms).1,
            exists|p: int|
                0 <= p <= old(self).wqueue(key@).len() && final(self).wqueue(key@) == old(
                    self,
                ).wqueue(key@).skip(p),
            rpush_spec(old(self)@, key@, value@, now_ms).1 > 0 && old(self).wqueue(key@).len()
                > 0 ==> final(self).wqueue(key@).len() < old(self).wqueue(key@).len(),
            forall|k2: Seq<u8>| k2 != key@ ==> final(self).wqueue(k2) == old(self).wqueue(k2),
    {
        let ghost m0 = self@;
        let nkey = crate::resp::copy_bytes(&key);
        let ghost s0 = self.entries@;
        let found = self.find(&key);
        match found {
            None => {
                let mut l: Vec<Vec<u8>> = Vec::new();
                l.push(value);
                let rec = RecordData::new(RecordType::List(l), None);
                self.entries.push((key, rec));
                proof {
                    lemma_map_after_push(s0, (key, rec));
                    assert(views_of(l@) =~= seq![value@]);
                    assert(self@ =~= rpush_spec(m0, key@, value@, now_ms).0);
                }
                proof {
                    assert(self.waiters@ == old(self).waiters@);
                    assert(forall|k2: Seq<u8>| #[trigger] self.wqueue(k2) == old(self).wqueue(k2));
                }
                self.notify_waiters(&nkey);
                1
            },
            Some(i) => {
                if self.entries[i].1.is_expired(now_ms) {
                    self.entries.remove(i);
                    proof {
                        lemma_map_after_remove(s0, i as int);
                    }
                    let ghost s1 = self.entries@;
                    let mut l: Vec<Vec<u8>> = Vec::new();
                    l.push(value);
                    let rec = RecordData::new(RecordType::List(l), None);
                    proof {
                        assert(!self@.contains_key(key@));
                        assert(lookup(s1, key@) is None);
                    }
                    self.entries.push((key, rec));
                    proof {
                        lemma_map_after_push(s1, (key, rec));
                        assert(views_of(l@) =~= seq![value@]);
                        assert(self@ =~= rpush_spec(m0, key@, value@, now_ms).0);
                    }
                    proof {
                        assert(self.waiters@ == old(self).waiters@);
                        assert(forall|k2: Seq<u8>| #[trigger] self.wqueue(k2) == old(self).wqueue(k2));
                    }
                    self.notify_waiters(&nkey);
                    1
                } else {
                    let pair = self.entries.remove(i);
                    proof {
                        lemma_map_after_remove(s0, i as int);
                    }
                    let ghost s1 = self.entries@;
                    let k0 = pair.0;
                    match pair.1 {
                        RecordData { record: RecordType::List(mut l), expiration } => {
                            let ghost lv = views_of(l@);
                            l.push(value);
                            let n = l.len();
                            let rec = RecordData::new(RecordType::List(l), expiration);
                            proof {
                                assert(!self@.contains_key(key@));
                                assert(lookup(s1, k0@) is None);
                            }
                            self.entries.push((k0, rec));
                            proof {
                                lemma_map_after_push(s1, (k0, rec));
                                assert(views_of(l@) =~= lv.push(value@));
                                assert(self@ =~= rpush_spec(m0, key@, value@, now_ms).0);
                            }
                            proof {
                                assert(self.waiters@ == old(self).waiters@);
                                assert(forall|k2: Seq<u8>| #[trigger] self.wqueue(k2) == old(self).wqueue(k2));
                            }
                            self.notify_waiters(&nkey);
                            n
                        },
                        other => {
                            proof {
                                assert(!self@.contains_key(key@));
                                assert(lookup(s1, k0@) is None);
                            }
                            self.entries.push((k0, other));
                            proof {
                                lemma_map_after_push(s1, (k0, other));
                                assert(self@ =~= m0);
                                assert(self@ =~= rpush_spec(m0, key@, value@, now_ms).0);
                                assert(old(self).wqueue(key@).skip(0) =~= old(self).wqueue(
                                    key@,
                                ));
                            }
                            0
                        },
                    }
                }
            },
        }
    }

    /// Prepends `value` at the head of the list at `key`, otherwise as
    /// `rpush`.
    pub fn lpush(&mut self, key: Vec<u8>, value: Vec<u8>, now_ms: u64) -> (n: usize)
        requires
            old(self).wf(),
        ensures
            final(self).wf(),
            final(self)@ == lpush_spec(old(self)@, key@, value@, now_ms).0,
            n as nat == lpush_spec(old(self)@, key@, value@, now_ms).1,
            exists|p: int|
                0 <= p <= old(self).wqueue(key@).len() && final(self).wqueue(key@) == old(
                    self,
                ).wqueue(key@).skip(p),
            lpush_spec(old(self)@, key@, value@, now_ms).1 > 0 && old(self).wqueue(key@).len()
                > 0 ==> final(self).wqueue(key@).len() < old(self).wqueue(key@).len(),
            forall|k2: Seq<u8>| k2 != key@ ==> final(self).wqueue(k2) == old(self).wqueue(k2),
    {
        let ghost m0 = self@;
        let nkey = crate::resp::copy_bytes(&key);
        let ghost s0 = self.entries@;
        let found = self.find(&key);
        match found {
            None => {
                let mut l: Vec<Vec<u8>> = Vec::new();
                l.push(value);
                let rec = RecordData::new(RecordType::List(l), None);
                self.entries.push((key, rec));
                proof {
                    lemma_map_after_push(s0, (key, rec));
                    assert(views_of(l@) =~= seq![value@]);
                    assert(self@ =~= lpush_spec(m0, key@, value@, now_ms).0);
                }
                proof {
                    assert(self.waiters@ == old(self).waiters@);
                    assert(forall|k2: Seq<u8>| #[trigger] self.wqueue(k2) == old(self).wqueue(k2));
                }
                self.notify_waiters(&nkey);
                1
            },
            Some(i) => {
                if self.entries[i].1.is_expired(now_ms) {
                    self.entries.remove(i);
                    proof {
                        lemma_map_after_remove(s0, i as int);
                    }
                    let ghost s1 = self.entries@;
                    let mut l: Vec<Vec<u8>> = Vec::new();
                    l.push(value);
                    let rec = RecordData::new(RecordType::List(l), None);
                    proof {
                        assert(!self@.contains_key(key@));
                        assert(lookup(s1, key@) is None);
                    }
                    self.entries.push((key, rec));
                    proof {
                        lemma_map_after_push(s1, (key, rec));
                        assert(views_of(l@) =~= seq![value@]);
                        assert(self@ =~= lpush_spec(m0, key@, value@, now_ms).0);
                    }
                    proof {
                        assert(self.waiters@ == old(self).waiters@);
                        assert(forall|k2: Seq<u8>| #[trigger] self.wqueue(k2) == old(self).wqueue(k2));
                    }
                    self.notify_waiters(&nkey);
                    1
                } else {
                    let pair = self.entries.remove(i);
                    proof {
                        lemma_map_after_remove(s0, i as int);
                    }
                    let ghost s1 = self.entries@;
                    let k0 = pair.0;
                    match pair.1 {
                        RecordData { record: RecordType::List(mut l), expiration } => {
                            let ghost lv = views_of(l@);
                            l.insert(0, value);
                            let n = l.len();
                            let rec = RecordData::new(RecordType::List(l), expiration);
                            proof {
                                assert(!self@.contains_key(key@));
                                assert(lookup(s1, k0@) is None);
                            }
                            self.entries.push((k0, rec));
                            proof {
                                lemma_map_after_push(s1, (k0, rec));
                                assert(views_of(l@) =~= seq![value@] + lv);
                                assert(self@ =~= lpush_spec(m0, key@, value@, now_ms).0);
                            }
                            proof {
                                assert(self.waiters@ == old(self).waiters@);
                                assert(forall|k2: Seq<u8>| #[trigger] self.wqueue(k2) == old(self).wqueue(k2));
                            }
                            self.notify_waiters(&nkey);
                            n
                        },
                        other => {
                            proof {
                                assert(!self@.contains_key(key@));
                                assert(lookup(s1, k0@) is None);
                            }
                            self.entries.push((k0, other));
                            proof {
                                lemma_map_after_push(s1, (k0, other));
                                assert(self@ =~= m0);
                                assert(self@ =~= lpush_spec(m0, key@, value@, now_ms).0);
                                assert(old(self).wqueue(key@).skip(0) =~= old(self).wqueue(
                                    key@,
                                ));
                            }
                            0
                        },
                    }
                }
            },
        }
    }

    /// Pops the head of the list at `key`; an empty list is kept, not
    /// discarded.
    pub fn lpop(&mut self, key: &Vec<u8>, now_ms: u64) -> (r: Option<Vec<u8>>)
        requires
            old(self).wf(),
        ensures
            final(self).wf(),
            final(self)@ == lpop_spec(old(self)@, key@, now_ms).0,
            match r {
                Some(v) => lpop_spec(old(self)@, key@, now_ms).1 == Some(v@),
                None => lpop_spec(old(self)@, key@, now_ms).1 is None,
            },
            forall|k2: Seq<u8>| final(self).wqueue(k2) == old(self).wqueue(k2),
    {
        let ghost m0 = self@;
        let ghost s0 = self.entries@;
        match self.find(key) {
            None => None,
            Some(i) => {
                if self.entries[i].1.is_expired(now_ms) {
                    self.entries.remove(i);
                    proof {
                        lemma_map_after_remove(s0, i as int);
                    }
                    None
                } else {
                    let pair = self.entries.remove(i);
                    proof {
                        lemma_map_after_remove(s0, i as int);
                    }
                    let ghost s1 = self.entries@;
                    let k0 = pair.0;
                    match pair.1 {
                        RecordData { record: RecordType::List(mut l), expiration } => {
                            if l.len() > 0 {
                                let ghost lv = views_of(l@);
                                let v = l.remove(0);
                                let rec = RecordData::new(RecordType::List(l), expiration);
                                proof {
                                    assert(!self@.contains_key(key@));
                                    assert(lookup(s1, k0@) is None);
                                }
                                self.entries.push((k0, rec));
                                proof {
                                    lemma_map_after_push(s1, (k0, rec));
                                    assert(views_of(l@) =~= lv.drop_first());
                                    assert(self@ =~= lpop_spec(m0, key@, now_ms).0);
                                }
                                Some(v)
                            } else {
                                let rec = RecordData::new(RecordType::List(l), expiration);
                                proof {
                                    assert(!self@.contains_key(key@));
                                    assert(lookup(s1, k0@) is None);
                                    assert(rec@ == m0[key@]);
                                }
                                self.entries.push((k0, rec));
                                proof {
                                    lemma_map_after_push(s1, (k0, rec));
                                    assert(self@ =~= m0);
                                }
                                None
                            }
                        },
                        other => {
                            proof {
                                assert(!self@.contains_key(key@));
                                assert(lookup(s1, k0@) is None);
                                assert(other@ == m0[key@]);
                            }
                            self.entries.push((k0, other));
                            proof {
                                lemma_map_after_push(s1, (k0, other));
                                assert(self@ =~= m0);
                            }
                            None
                        },
                    }
                }
            },
        }
    }

    /// The length of the list at `key`, zero for a missing key or another
    /// type.
    pub fn llen(&mut self, key: &Vec<u8>, now_ms: u64) -> (n: usize)
        requires
            old(self).wf(),
        ensures
            final(self).wf(),
            final(self)@ == llen_spec(old(self)@, key@, now_ms).0,
            n as nat == llen_spec(old(self)@, key@, now_ms).1,
            forall|k2: Seq<u8>| final(self).wqueue(k2) == old(self).wqueue(k2),
    {
        let ghost s0 = self.entries@;
        match self.find(key) {
            None => 0,
            Some(i) => {
                if self.entries[i].1.is_expired(now_ms) {
                    self.entries.remove(i);
                    proof {
                        lemma_map_after_remove(s0, i as int);
                    }
                    0
                } else {
                    match &self.entries[i].1.record {
                        RecordType::List(l) => l.len(),
                        _ => 0,
                    }
                }
            },
        }
    }

    /// The name of the type of the record at `key`: `string`, `list`,
    /// `stream`, or `none` when the key is absent or expired.
    pub fn type_of(&mut self, key: &Vec<u8>, now_ms: u64) -> (r: &'static str)
        requires
            old(self).wf(),
        ensures
            final(self).wf(),
            final(self)@ == type_spec(old(self)@, key@, now_ms).0,
            r@ == type_spec(old(self)@, key@, now_ms).1,
            forall|k2: Seq<u8>| final(self).wqueue(k2) == old(self).wqueue(k2),
    {
        let ghost s0 = self.entries@;
        match self.find(key) {
            None => "none",
            Some(i) => {
                if self.entries[i].1.is_expired(now_ms) {
                    self.entries.remove(i);
                    proof {
                        lemma_map_after_remove(s0, i as int);
                    }
                    "none"
                } else {
                    self.entries[i].1.kind_name()
                }
            },
        }
    }

    /// The clamped inclusive slice of the list at `key`: negative indices
    /// count from the end, and an empty normalised range yields an empty
    /// vector.
    pub fn lrange(&mut self, key: &Vec<u8>, start: i64, stop: i64, now_ms: u64) -> (r: Vec<
        Vec<u8>,
    >)
        requires
            old(self).wf(),
        ensures
            final(self).wf(),
            final(self)@ == lrange_spec(old(self)@, key@, start as int, stop as int, now_ms).0,
            views_of(r@) == lrange_spec(old(self)@, key@, start as int, stop as int, now_ms).1,
            forall|k2: Seq<u8>| final(self).wqueue(k2) == old(self).wqueue(k2),
    {
        let ghost s0 = self.entries@;
        match self.find(key) {
            None => {
                let r: Vec<Vec<u8>> = Vec::new();
                proof {
                    assert(views_of(r@) =~= Seq::<Seq<u8>>::empty());
                }
                r
            },
            Some(i) => {
                if self.entries[i].1.is_expired(now_ms) {
                    self.entries.remove(i);
                    proof {
                        lemma_map_after_remove(s0, i as int);
                    }
                    let r: Vec<Vec<u8>> = Vec::new();
                    proof {
                        assert(views_of(r@) =~= Seq::<Seq<u8>>::empty());
                    }
                    r
                } else {
                    match &self.entries[i].1.record {
                        RecordType::List(l) => {
                            let ghost lv = views_of(l@);
                            let len = l.len();
                            let s0i: i128 = if start < 0 {
                                len as i128 + start as i128
                            } else {
                                start as i128
                            };
                            let s1i: i128 = if s0i < 0 {
                                0
                            } else {
                                s0i
                            };
                            let e0i: i128 = if stop < 0 {
                                len as i128 + stop as i128
                            } else {
                                stop as i128
                            };
                            let e1i: i128 = if e0i > len as i128 - 1 {
                                len as i128 - 1
                            } else {
                                e0i
                            };
                            let mut r: Vec<Vec<u8>> = Vec::new();
                            proof {
                                assert(views_of(r@) =~= Seq::<Seq<u8>>::empty());
                            }
                            if s1i > e1i {
                                return r;
                            }
                            let lo = s1i as usize;
                            let hi = e1i as usize;
                            let mut j: usize = lo;
                            proof {
                                assert(views_of(r@) =~= lv.subrange(lo as int, lo as int));
                            }
                            while j <= hi
                                invariant
                                    lo <= j <= hi + 1,
                                    hi < len,
                                    len == l@.len(),
                                    lv == views_of(l@),
                                    views_of(r@) == lv.subrange(lo as int, j as int),
                                decreases hi + 1 - j,
                            {
                                let ghost prev = r@;
                                r.push(crate::resp::copy_bytes(&l[j]));
                                proof {
                                    assert(views_of(r@) =~= views_of(prev).push(lv[j as int]));
                                    assert(views_of(r@) =~= lv.subrange(lo as int, j as int + 1));
                                }
                                j = j + 1;
                            }
                            r
                        },
                        _ => {
                            let r: Vec<Vec<u8>> = Vec::new();
                            proof {
                                assert(views_of(r@) =~= Seq::<Seq<u8>>::empty());
                            }
                            r
                        },
                    }
                }
            },
        }
    }

    /// Appends an entry to the stream at `key`, creating a missing key as
    /// an empty stream (which is kept even when the identifier is
    /// rejected); a key of another type is an error.
    pub fn xadd(
        &mut self,
        key: Vec<u8>,
        id: &Vec<u8>,
        fields: Vec<(Vec<u8>, Vec<u8>)>,
        now_ms: u64,
    ) -> (r: Result<StreamEntryID, StoreError>)
        requires
            old(self).wf(),
        ensures
            final(self).wf(),
            final(self)@ == store_xadd_spec(
                old(self)@,
                key@,
                id@,
                crate::stream::field_views(fields@),
                now_ms,
            ).0,
            r == store_xadd_spec(
                old(self)@,
                key@,
                id@,
                crate::stream::field_views(fields@),
                now_ms,
            ).1,
            forall|k2: Seq<u8>| final(self).wqueue(k2) == old(self).wqueue(k2),
    {
        let ghost m0 = self@;
        let ghost s0 = self.entries@;
        let found = self.find(&key);
        match found {
            None => {
                let mut sr = StreamRecord::new();
                let res = sr.xadd(id, fields, now_ms as u128);
                let rec = RecordData::new(RecordType::Stream(sr), None);
                self.entries.push((key, rec));
                proof {
                    lemma_map_after_push(s0, (key, rec));
                    assert(self@ =~= store_xadd_spec(
                        m0,
                        key@,
                        id@,
                        crate::stream::field_views(fields@),
                        now_ms,
                    ).0);
                }
                match res {
                    Ok(idv) => Ok(idv),
                    Err(e) => Err(StoreError::Stream(e)),
                }
            },
            Some(i) => {
                if self.entries[i].1.is_expired(now_ms) {
                    self.entries.remove(i);
                    proof {
                        lemma_map_after_remove(s0, i as int);
                    }
                    let ghost s1 = self.entries@;
                    let mut sr = StreamRecord::new();
                    let res = sr.xadd(id, fields, now_ms as u128);
                    let rec = RecordData::new(RecordType::Stream(sr), None);
                    proof {
                        assert(!self@.contains_key(key@));
                        assert(lookup(s1, key@) is None);
                    }
                    self.entries.push((key, rec));
                    proof {
                        lemma_map_after_push(s1, (key, rec));
                        assert(self@ =~= store_xadd_spec(
                            m0,
                            key@,
                            id@,
                            crate::stream::field_views(fields@),
                            now_ms,
                        ).0);
                    }
                    match res {
                        Ok(idv) => Ok(idv),
                        Err(e) => Err(StoreError::Stream(e)),
                    }
                } else {
                    let is_stream = match &self.entries[i].1.record {
                        RecordType::Stream(_) => true,
                        _ => false,
                    };
                    if !is_stream {
                        return Err(StoreError::WrongType);
                    }
                    let pair = self.entries.remove(i);
                    proof {
                        lemma_map_after_remove(s0, i as int);
                    }
                    let ghost s1 = self.entries@;
                    let k0 = pair.0;
                    match pair.1 {
                        RecordData { record: RecordType::Stream(mut sr), expiration } => {
                            let res = sr.xadd(id, fields, now_ms as u128);
                            let rec = RecordData::new(RecordType::Stream(sr), expiration);
                            proof {
                                assert(!self@.contains_key(key@));
                                assert(lookup(s1, k0@) is None);
                            }
                            self.entries.push((k0, rec));
                            proof {
                                lemma_map_after_push(s1, (k0, rec));
                                assert(self@ =~= store_xadd_spec(
                                    m0,
                                    key@,
                                    id@,
                                    crate::stream::field_views(fields@),
                                    now_ms,
                                ).0);
                            }
                            match res {
                                Ok(idv) => Ok(idv),
                                Err(e) => Err(StoreError::Stream(e)),
                            }
                        },
                        other => {
                            proof {
                                assert(false);
                            }
                            self.entries.push((k0, other));
                            Err(StoreError::WrongType)
                        },
                    }
                }
            },
        }
    }

    /// The entries of the stream at `key` whose identifiers lie in the
    /// requested range; a missing key yields no entries.
    pub fn xrange(&mut self, key: &Vec<u8>, start: &Vec<u8>, end: &Vec<u8>, now_ms: u64) -> (r:
        Result<StramValue, StoreError>)
        requires
            old(self).wf(),
        ensures
            final(self).wf(),
            final(self)@ == store_xrange_spec(old(self)@, key@, start@, end@, now_ms).0,
            match r {
                Ok(v) => store_xrange_spec(old(self)@, key@, start@, end@, now_ms).1 == Ok::<
                    _,
                    StoreError,
                >(entry_views(v.0@)),
                Err(e) => store_xrange_spec(old(self)@, key@, start@, end@, now_ms).1 == Err::<
                    Seq<EntryV>,
                    _,
                >(e),
            },
            forall|k2: Seq<u8>| final(self).wqueue(k2) == old(self).wqueue(k2),
    {
        let ghost s0 = self.entries@;
        match self.find(key) {
            None => {
                let v = StramValue(Vec::new());
                proof {
                    assert(entry_views(v.0@) =~= Seq::<EntryV>::empty());
                }
                Ok(v)
            },
            Some(i) => {
                if self.entries[i].1.is_expired(now_ms) {
                    self.entries.remove(i);
                    proof {
                        lemma_map_after_remove(s0, i as int);
                    }
                    let v = StramValue(Vec::new());
                    proof {
                        assert(entry_views(v.0@) =~= Seq::<EntryV>::empty());
                    }
                    Ok(v)
                } else {
                    match &self.entries[i].1.record {
                        RecordType::Stream(sr) => match sr.xrange(start, end) {
                            Ok(v) => Ok(v),
                            Err(e) => Err(StoreError::Stream(e)),
                        },
                        _ => Err(StoreError::WrongType),
                    }
                }
            },
        }
    }

    /// One immediate blocking-pop attempt: the head of the list at `key`
    /// paired with the key, or nothing when a consumer would have to wait.
    pub fn blpop(&mut self, key: &Vec<u8>, now_ms: u64) -> (r: Option<(Vec<u8>, Vec<u8>)>)
        requires
            old(self).wf(),
        ensures
            final(self).wf(),
            final(self)@ == lpop_spec(old(self)@, key@, now_ms).0,
            match r {
                Some(p) => p.0@ == key@ && lpop_spec(old(self)@, key@, now_ms).1 == Some(p.1@),
                None => lpop_spec(old(self)@, key@, now_ms).1 is None,
            },
            forall|k2: Seq<u8>| final(self).wqueue(k2) == old(self).wqueue(k2),
    {
        match self.lpop(key, now_ms) {
            Some(v) => Some((crate::resp::copy_bytes(key), v)),
            None => None,
        }
    }

    /// The wake handles waiting on `k`, earliest registration first.
    pub closed spec fn wqueue(self, k: Seq<u8>) -> Seq<tokio::sync::oneshot::Sender<()>> {
        waiter_queue(self.waiters@, k)
    }

    /// Registers a fresh one-shot wake handle at the tail of `key`'s wait
    /// queue and hands back its receiver; the keyspace and every other
    /// queue are untouched.
    pub fn register_waiter(&mut self, key: &Vec<u8>) -> (rx: tokio::sync::oneshot::Receiver<()>)
        requires
            old(self).wf(),
        ensures
            final(self).wf(),
            final(self)@ == old(self)@,
            final(self).wqueue(key@).len() == old(self).wqueue(key@).len() + 1,
            final(self).wqueue(key@).take(old(self).wqueue(key@).len() as int) == old(
                self,
            ).wqueue(key@),
            forall|k2: Seq<u8>| k2 != key@ ==> final(self).wqueue(k2) == old(self).wqueue(k2),
    {
        let (tx, rx) = crate::wake::wake_channel();
        let k = crate::resp::copy_bytes(key);
        let ghost w0 = self.waiters@;
        self.waiters.push((k, tx));
        proof {
            assert(self.waiters@ =~= w0 + seq![(k, tx)]);
            assert forall|k2: Seq<u8>| true implies waiter_queue(self.waiters@, k2)
                == (if k2 == key@ {
                waiter_queue(w0, k2).push(tx)
            } else {
                waiter_queue(w0, k2)
            }) by {
                lemma_wq_concat(w0, seq![(k, tx)], k2);
                assert(seq![(k, tx)].drop_first() =~= Seq::<(
                    Vec<u8>,
                    tokio::sync::oneshot::Sender<()>,
                )>::empty());
                assert(waiter_queue(
                    Seq::<(Vec<u8>, tokio::sync::oneshot::Sender<()>)>::empty(),
                    k2,
                ) == Seq::<tokio::sync::oneshot::Sender<()>>::empty());
                assert(seq![(k, tx)].first() == (k, tx));
                if k2 == key@ {
                    assert(waiter_queue(seq![(k, tx)], k2) == seq![tx] + Seq::<
                        tokio::sync::oneshot::Sender<()>,
                    >::empty());
                    assert(waiter_queue(seq![(k, tx)], k2) =~= seq![tx]);
                    assert(waiter_queue(w0, k2) + seq![tx] =~= waiter_queue(w0, k2).push(tx));
                } else {
                    assert(waiter_queue(seq![(k, tx)], k2) =~= Seq::<
                        tokio::sync::oneshot::Sender<()>,
                    >::empty());
                    assert(waiter_queue(w0, k2) + waiter_queue(seq![(k, tx)], k2)
                        =~= waiter_queue(w0, k2));
                }
            }
            assert(self.wqueue(key@).take(waiter_queue(w0, key@).len() as int) =~= waiter_queue(
                w0,
                key@,
            ));
        }
        rx
    }

    /// Signals the earliest-registered live waiter on `key`: dead handles
    /// are discarded in passing, and at most one send succeeds. The
    /// keyspace and every other queue are untouched, and the queue of
    /// `key` loses a prefix: waiters are served first-in, first-out,
    /// skipping the abandoned ones. Whatever the sends return, a
    /// non-empty queue always loses at least its head handle.
    pub fn notify_waiters(&mut self, key: &Vec<u8>)
        requires
            old(self).wf(),
        ensures
            final(self).wf(),
            final(self)@ == old(self)@,
            exists|p: int|
                0 <= p <= old(self).wqueue(key@).len() && final(self).wqueue(key@) == old(
                    self,
                ).wqueue(key@).skip(p),
            old(self).wqueue(key@).len() > 0 ==> final(self).wqueue(key@).len() < old(
                self,
            ).wqueue(key@).len(),
            forall|k2: Seq<u8>| k2 != key@ ==> final(self).wqueue(k2) == old(self).wqueue(k2),
    {
        let mut i: usize = 0;
        proof {
            assert(old(self).wqueue(key@).skip(0) =~= old(self).wqueue(key@));
        }
        while i < self.waiters.len()
            invariant
                self.wf(),
                self@ == old(self)@,
                i <= self.waiters@.len(),
                forall|j: int| 0 <= j < i ==> (#[trigger] self.waiters@[j]).0@ != key@,
                exists|p: int|
                    0 <= p <= old(self).wqueue(key@).len() && waiter_queue(
                        self.waiters@,
                        key@,
                    ) == old(self).wqueue(key@).skip(p),
                forall|k2: Seq<u8>|
                    k2 != key@ ==> waiter_queue(self.waiters@, k2) == old(self).wqueue(k2),
            decreases self.waiters@.len() - i,
        {
            if bytes_eq(&self.waiters[i].0, key) {
                let ghost w0 = self.waiters@;
                let pair = self.waiters.remove(i);
                proof {
                    lemma_wq_remove_first_match(w0, key@, i as int);
                    assert(self.waiters@ =~= w0.remove(i as int));
                    let p0 = choose|p: int|
                        0 <= p <= old(self).wqueue(key@).len() && waiter_queue(w0, key@) == old(
                            self,
                        ).wqueue(key@).skip(p);
                    assert(waiter_queue(self.waiters@, key@) =~= old(self).wqueue(key@).skip(
                        p0 + 1,
                    ));
                    assert(old(self).wqueue(key@).skip(p0).len() > 0);
                    assert(waiter_queue(self.waiters@, key@).len() < old(self).wqueue(
                        key@,
                    ).len());
                }
                if crate::wake::send_wake(pair.1) {
                    return;
                }
            } else {
                i = i + 1;
            }
        }
        proof {
            lemma_wq_none(self.waiters@, key@);
        }
    }
}

/// A write with a time-to-live is observable exactly until its deadline:
/// a read at or past the expiration instant of a freshly written string
/// sees nothing, and a read before it sees the written value.
pub proof fn lemma_ttl_observability(
    m: Map<Seq<u8>, RecordV>,
    k: Seq<u8>,
    v: Seq<u8>,
    deadline: u64,
    read_ms: u64,
)
    ensures
        read_ms >= deadline ==> get_spec(set_spec(m, k, v, Some(deadline)), k, read_ms).1
            is None,
        read_ms < deadline ==> get_spec(set_spec(m, k, v, Some(deadline)), k, read_ms).1
            == Some(v),
{
}

/// Pushing a sequence of values at the tail of a list appends them in
/// order and reports the grown length.
proof fn lemma_rpush_all_list(
    m: Map<Seq<u8>, RecordV>,
    k: Seq<u8>,
    l: Seq<Seq<u8>>,
    e: Option<u64>,
    vs: Seq<Seq<u8>>,
    now_ms: u64,
)
    requires
        m.contains_key(k),
        m[k].rec == RecV::List(l),
        m[k].exp == e,
        !m[k].expired(now_ms),
    ensures
        rpush_all(m, k, vs, now_ms).0 == m.insert(k, RecordV { rec: RecV::List(l + vs), exp: e }),
        vs.len() > 0 ==> rpush_all(m, k, vs, now_ms).1 == l.len() + vs.len(),
    decreases vs.len(),
{
    if vs.len() == 0 {
        assert(l + vs =~= l);
        assert(RecordV { rec: RecV::List(l + vs), exp: e } == m[k]);
        assert(m.insert(k, m[k]) =~= m);
    } else if vs.len() == 1 {
        assert(l.push(vs[0]) =~= l + vs);
    } else {
        let m1 = m.insert(k, RecordV { rec: RecV::List(l.push(vs[0])), exp: e });
        assert(rpush_spec(m, k, vs[0], now_ms).0 == m1);
        lemma_rpush_all_list(m1, k, l.push(vs[0]), e, vs.drop_first(), now_ms);
        assert(l.push(vs[0]) + vs.drop_first() =~= l + vs);
        assert(m1.insert(k, RecordV { rec: RecV::List(l + vs), exp: e }) =~= m.insert(
            k,
            RecordV { rec: RecV::List(l + vs), exp: e },
        ));
    }
}

/// Popping a whole list head-first yields its elements in order.
proof fn lemma_lpop_many_list(
    m: Map<Seq<u8>, RecordV>,
    k: Seq<u8>,
    l: Seq<Seq<u8>>,
    e: Option<u64>,
    now_ms: u64,
)
    requires
        m.contains_key(k),
        m[k].rec == RecV::List(l),
        m[k].exp == e,
        !m[k].expired(now_ms),
    ensures
        lpop_many(m, k, l.len(), now_ms).1 == l,
    decreases l.len(),
{
    if l.len() == 0 {
        assert(lpop_many(m, k, 0, now_ms).1 =~= l);
    } else {
        let m1 = m.insert(k, RecordV { rec: RecV::List(l.drop_first()), exp: e });
        lemma_lpop_many_list(m1, k, l.drop_first(), e, now_ms);
        assert(seq![l.first()] + l.drop_first() =~= l);
    }
}

/// First-in, first-out: pushing values at the tail of a fresh key's list
/// and then popping as many heads returns exactly those values, in the
/// order they were pushed.
pub proof fn lemma_list_fifo(m: Map<Seq<u8>, RecordV>, k: Seq<u8>, vs: Seq<Seq<u8>>, now_ms: u64)
    requires
        !drop_expired(m, k, now_ms).contains_key(k),
    ensures
        lpop_many(rpush_all(m, k, vs, now_ms).0, k, vs.len(), now_ms).1 == vs,
{
    let m1 = drop_expired(m, k, now_ms);
    if vs.len() == 0 {
        assert(lpop_many(m, k, 0, now_ms).1 =~= vs);
    } else {
        let m2 = m1.insert(k, RecordV { rec: RecV::List(seq![vs[0]]), exp: None });
        assert(rpush_spec(m, k, vs[0], now_ms).0 == m2);
        if vs.len() == 1 {
            assert(rpush_all(m, k, vs, now_ms).0 == m2);
            lemma_lpop_many_list(m2, k, seq![vs[0]], None, now_ms);
            assert(seq![vs[0]] =~= vs);
        } else {
            lemma_rpush_all_list(m2, k, seq![vs[0]], None, vs.drop_first(), now_ms);
            assert(seq![vs[0]] + vs.drop_first() =~= vs);
            let m3 = m2.insert(k, RecordV { rec: RecV::List(vs), exp: None });
            assert(rpush_all(m, k, vs, now_ms).0 == m3);
            lemma_lpop_many_list(m3, k, vs, None, now_ms);
        }
    }
}

/// Value preservation across the blocking-pop handshake: once a push to a
/// fresh key's list is visible, the next pop attempt on that key returns
/// exactly the pushed value.
pub proof fn lemma_push_then_pop(m: Map<Seq<u8>, RecordV>, k: Seq<u8>, v: Seq<u8>, now_ms: u64)
    requires
        !drop_expired(m, k, now_ms).contains_key(k),
    ensures
        lpop_spec(rpush_spec(m, k, v, now_ms).0, k, now_ms).1 == Some(v),
{
}

/// Compares two byte strings for equality.
pub fn bytes_eq(a: &Vec<u8>, b: &Vec<u8>) -> (r: bool)
    ensures
        r == (a@ == b@),
{
    if a.len() != b.len() {
        proof {
            assert(a@ != b@);
        }
        return false;
    }
    let mut i: usize = 0;
    while i < a.len()
        invariant
            a@.len() == b@.len(),
            i <= a@.len(),
            forall|j: int| 0 <= j < i ==> a@[j] == b@[j],
        decreases a@.len() - i,
    {
        if a[i] != b[i] {
            return false;
        }
        i = i + 1;
    }
    proof {
        assert(a@ =~= b@);
    }
    true
}

} // verus!
