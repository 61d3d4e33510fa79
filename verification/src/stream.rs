//! Stream entries and their identifiers: parsing, generation, lexicographic
//! ordering, and the append-only record with strictly increasing identifiers.
use vstd::prelude::*;
use crate::bytes_of_str;
use crate::num::{
    dec_nat, fmt_u128, fmt_u64, parse_u128, parse_u64, parse_unsigned_spec,
};
use crate::str_bytes;

verus! {

/// A stream entry identifier: a millisecond timestamp and a sequence
/// counter, totally ordered lexicographically.
#[derive(Debug, Clone, Copy, PartialEq, Eq, Hash, PartialOrd, Ord)]
pub struct StreamEntryID {
    pub ms: u128,
    pub seq: u64,
}

/// Strict lexicographic order on identifiers.
pub open spec fn id_lt(a: StreamEntryID, b: StreamEntryID) -> bool {
    a.ms < b.ms || (a.ms == b.ms && a.seq < b.seq)
}

/// Non-strict lexicographic order on identifiers.
pub open spec fn id_le(a: StreamEntryID, b: StreamEntryID) -> bool {
    id_lt(a, b) || a == b
}

/// The forbidden all-zero identifier.
pub open spec fn id_zero() -> StreamEntryID {
    StreamEntryID { ms: 0, seq: 0 }
}

/// The next sequence number: one past the last when the timestamp repeats
/// (held at its maximum rather than wrapping), zero on a fresh timestamp.
pub open spec fn gen_seq_spec(ms: u128, last_ms: u128, last_seq: u64) -> u64 {
    if ms == last_ms {
        if last_seq == u64::MAX {
            u64::MAX
        } else {
            (last_seq + 1) as u64
        }
    } else {
        0
    }
}

/// The index of the first `-` of the string, if any.
pub open spec fn find_dash(s: Seq<u8>) -> Option<int>
    decreases s.len(),
{
    if s.len() == 0 {
        None
    } else if s[0] == 45 {
        Some(0)
    } else {
        match find_dash(s.drop_first()) {
            Some(j) => Some(j + 1),
            None => None,
        }
    }
}

/// What parsing `<ms>-<seq>` yields, with `*` for the sequence part
/// producing the generated sequence number: exactly one `-`, and numeric
/// parts in range.
pub open spec fn parse_id_spec(s: Seq<u8>, last: StreamEntryID) -> Option<StreamEntryID> {
    match find_dash(s) {
        None => None,
        Some(i) => {
            let a = s.take(i);
            let b = s.skip(i + 1);
            if find_dash(b) is Some {
                None
            } else {
                match parse_unsigned_spec(a, u128::MAX as nat) {
                    None => None,
                    Some(ms) => if b == seq![42u8] {
                        Some(
                            StreamEntryID {
                                ms: ms as u128,
                                seq: gen_seq_spec(ms as u128, last.ms, last.seq),
                            },
                        )
                    } else {
                        match parse_unsigned_spec(b, u64::MAX as nat) {
                            None => None,
                            Some(sq) => Some(StreamEntryID { ms: ms as u128, seq: sq as u64 }),
                        }
                    },
                }
            }
        },
    }
}

/// What parsing a fully explicit `<ms>-<seq>` yields: as `parse_id_spec`,
/// but without the `*` form.
pub open spec fn parse_exact_spec(s: Seq<u8>) -> Option<StreamEntryID> {
    match find_dash(s) {
        None => None,
        Some(i) => {
            let a = s.take(i);
            let b = s.skip(i + 1);
            if find_dash(b) is Some {
                None
            } else {
                match (parse_unsigned_spec(a, u128::MAX as nat), parse_unsigned_spec(
                    b,
                    u64::MAX as nat,
                )) {
                    (Some(ms), Some(sq)) => Some(
                        StreamEntryID { ms: ms as u128, seq: sq as u64 },
                    ),
                    _ => None,
                }
            }
        },
    }
}

/// What an identifier request resolves to: `*` alone takes the clock
/// milliseconds and a generated sequence number, anything else is parsed.
pub open spec fn new_id_spec(s: Seq<u8>, last: StreamEntryID, now_ms: u128) -> Option<
    StreamEntryID,
> {
    if s == seq![42u8] {
        Some(StreamEntryID { ms: now_ms, seq: gen_seq_spec(now_ms, last.ms, last.seq) })
    } else {
        parse_id_spec(s, last)
    }
}

/// The wire text of an identifier: `<ms>-<seq>` in decimal.
pub open spec fn id_bytes(id: StreamEntryID) -> Seq<u8> {
    dec_nat(id.ms as nat) + seq![45u8] + dec_nat(id.seq as nat)
}

/// A malformed identifier request.
#[derive(Debug, Clone, Copy, PartialEq, Eq)]
pub enum StreamEntryIDError {
    InvalidFormat,
}

impl StreamEntryIDError {
    /// The text reported for this error.
    pub open spec fn message_spec(self) -> Seq<u8> {
        bytes_of_str("Invalid stream ID format"@)
    }

    /// Renders the error text.
    pub fn message(&self) -> (r: Vec<u8>)
        ensures
            r@ == self.message_spec(),
    {
        proof {
            reveal_strlit("Invalid stream ID format");
        }
        str_bytes("Invalid stream ID format")
    }
}

/// A rejected stream append.
#[derive(Debug, Clone, Copy, PartialEq, Eq)]
pub enum StreamRecordError {
    StreamEntryIDError(StreamEntryIDError),
    MustBeGreater00,
    EqualOrSmallerThanLastID,
}

impl StreamRecordError {
    /// The text reported for this error.
    pub open spec fn message_spec(self) -> Seq<u8> {
        match self {
            StreamRecordError::StreamEntryIDError(e) => bytes_of_str("Stream entry ID error: "@)
                + e.message_spec(),
            StreamRecordError::MustBeGreater00 => bytes_of_str(
                "The ID specified in XADD must be greater than 0-0"@,
            ),
            StreamRecordError::EqualOrSmallerThanLastID => bytes_of_str(
                "The ID specified in XADD is equal or smaller than the target stream top item"@,
            ),
        }
    }

    /// Renders the error text.
    pub fn message(&self) -> (r: Vec<u8>)
        ensures
            r@ == self.message_spec(),
    {
        match self {
            StreamRecordError::StreamEntryIDError(e) => {
                proof {
                    reveal_strlit("Stream entry ID error: ");
                }
                let mut r = str_bytes("Stream entry ID error: ");
                let tail = e.message();
                crate::resp::push_all(&mut r, &tail);
                r
            },
            StreamRecordError::MustBeGreater00 => {
                proof {
                    reveal_strlit("The ID specified in XADD must be greater than 0-0");
                }
                str_bytes("The ID specified in XADD must be greater than 0-0")
            },
            StreamRecordError::EqualOrSmallerThanLastID => {
                proof {
                    reveal_strlit(
                        "The ID specified in XADD is equal or smaller than the target stream top item",
                    );
                }
                str_bytes(
                    "The ID specified in XADD is equal or smaller than the target stream top item",
                )
            },
        }
    }
}

impl StreamEntryID {
    /// Resolves an identifier request against the last assigned identifier,
    /// taking the current clock milliseconds for the `*` form.
    pub fn new(source: &Vec<u8>, last_id: &StreamEntryID, now_ms: u128) -> (r: Result<
        StreamEntryID,
        StreamEntryIDError,
    >)
        ensures
            match r {
                Ok(id) => new_id_spec(source@, *last_id, now_ms) == Some(id),
                Err(e) => new_id_spec(source@, *last_id, now_ms) is None && e
                    == StreamEntryIDError::InvalidFormat,
            },
    {
        if source.len() == 1 && source[0] == 42 {
            proof {
                assert(source@ =~= seq![42u8]);
            }
            return Ok(Self::gen_id(last_id, now_ms));
        }
        proof {
            if source@ == seq![42u8] {
                assert(source@.len() == 1 && source@[0] == 42);
                assert(false);
            }
        }
        Self::parse_id(source, last_id)
    }

    /// Parses `<ms>-<seq>`, allowing `*` as the sequence part.
    pub fn parse_id(source: &Vec<u8>, last_id: &StreamEntryID) -> (r: Result<
        StreamEntryID,
        StreamEntryIDError,
    >)
        ensures
            match r {
                Ok(id) => parse_id_spec(source@, *last_id) == Some(id),
                Err(e) => parse_id_spec(source@, *last_id) is None && e
                    == StreamEntryIDError::InvalidFormat,
            },
    {
        let parts = split_dash(source);
        match parts {
            None => Err(StreamEntryIDError::InvalidFormat),
            Some(p) => {
                let (a, b) = p;
                match parse_u128(&a) {
                    None => Err(StreamEntryIDError::InvalidFormat),
                    Some(ms) => {
                        if b.len() == 1 && b[0] == 42 {
                            proof {
                                assert(b@ =~= seq![42u8]);
                            }
                            Ok(
                                StreamEntryID {
                                    ms,
                                    seq: Self::gen_seq(ms, last_id.ms, last_id.seq),
                                },
                            )
                        } else {
                            proof {
                                if b@ == seq![42u8] {
                                    assert(b@.len() == 1 && b@[0] == 42);
                                    assert(false);
                                }
                            }
                            match parse_u64(&b) {
                                None => Err(StreamEntryIDError::InvalidFormat),
                                Some(sq) => Ok(StreamEntryID { ms, seq: sq }),
                            }
                        }
                    },
                }
            },
        }
    }

    /// Generates an identifier from the clock milliseconds.
    pub fn gen_id(last_id: &StreamEntryID, now_ms: u128) -> (r: StreamEntryID)
        ensures
            r.ms == now_ms,
            r.seq == gen_seq_spec(now_ms, last_id.ms, last_id.seq),
    {
        let seq = Self::gen_seq(now_ms, last_id.ms, last_id.seq);
        StreamEntryID { ms: now_ms, seq }
    }

    /// The next sequence number under a given timestamp.
    pub fn gen_seq(ms: u128, last_ms: u128, last_seq: u64) -> (r: u64)
        ensures
            r == gen_seq_spec(ms, last_ms, last_seq),
    {
        if ms == last_ms {
            if last_seq == u64::MAX {
                u64::MAX
            } else {
                last_seq + 1
            }
        } else {
            0
        }
    }

    /// Parses a fully explicit `<ms>-<seq>`.
    pub fn parse_exact(source: &Vec<u8>) -> (r: Result<StreamEntryID, StreamEntryIDError>)
        ensures
            match r {
                Ok(id) => parse_exact_spec(source@) == Some(id),
                Err(e) => parse_exact_spec(source@) is None && e
                    == StreamEntryIDError::InvalidFormat,
            },
    {
        let parts = split_dash(source);
        match parts {
            None => Err(StreamEntryIDError::InvalidFormat),
            Some(p) => {
                let (a, b) = p;
                match (parse_u128(&a), parse_u64(&b)) {
                    (Some(ms), Some(sq)) => Ok(StreamEntryID { ms, seq: sq }),
                    _ => Err(StreamEntryIDError::InvalidFormat),
                }
            },
        }
    }

    /// True when `self` is strictly below `other` in the lexicographic
    /// order.
    pub fn lt(&self, other: &StreamEntryID) -> (r: bool)
        ensures
            r == id_lt(*self, *other),
    {
        self.ms < other.ms || (self.ms == other.ms && self.seq < other.seq)
    }

    /// True when `self` is at or below `other`.
    pub fn le(&self, other: &StreamEntryID) -> (r: bool)
        ensures
            r == id_le(*self, *other),
    {
        self.ms < other.ms || (self.ms == other.ms && self.seq <= other.seq)
    }

    /// Renders the identifier as `<ms>-<seq>`.
    pub fn to_bytes(&self) -> (r: Vec<u8>)
        ensures
            r@ == id_bytes(*self),
    {
        let mut r = fmt_u128(self.ms);
        r.push(45);
        let tail = fmt_u64(self.seq);
        crate::resp::push_all(&mut r, &tail);
        proof {
            assert(r@ =~= id_bytes(*self));
        }
        r
    }
}

/// Splits the string at its only `-`; nothing when the count of `-` is not
/// exactly one.
fn split_dash(source: &Vec<u8>) -> (r: Option<(Vec<u8>, Vec<u8>)>)
    ensures
        match r {
            Some(p) => {
                &&& find_dash(source@) is Some
                &&& p.0@ == source@.take(find_dash(source@).unwrap())
                &&& p.1@ == source@.skip(find_dash(source@).unwrap() + 1)
                &&& find_dash(p.1@) is None
            },
            None => find_dash(source@) is None || find_dash(
                source@.skip(find_dash(source@).unwrap() + 1),
            ) is Some,
        },
{
    let n = source.len();
    let mut i: usize = 0;
    let mut first: Option<usize> = None;
    while i < n
        invariant
            n == source@.len(),
            i <= n,
            match first {
                Some(f) => {
                    &&& f < i
                    &&& source@[f as int] == 45
                    &&& forall|k: int| 0 <= k < f ==> source@[k] != 45
                    &&& forall|k: int| f < k < i ==> source@[k] != 45
                },
                None => forall|k: int| 0 <= k < i ==> source@[k] != 45,
            },
        decreases n - i,
    {
        if source[i] == 45 {
            match first {
                None => {
                    first = Some(i);
                },
                Some(_) => {
                    proof {
                        let f = first.unwrap() as int;
                        lemma_find_dash_at(source@, f);
                        let b = source@.skip(f + 1);
                        assert(b[i - f - 1] == 45);
                        lemma_find_dash_some(b, i - f - 1);
                    }
                    return None;
                },
            }
        }
        i = i + 1;
    }
    match first {
        None => {
            proof {
                lemma_find_dash_none(source@);
            }
            None
        },
        Some(f) => {
            proof {
                lemma_find_dash_at(source@, f as int);
                let b = source@.skip(f as int + 1);
                assert(forall|k: int| 0 <= k < b.len() ==> b[k] == source@[k + f + 1]);
                lemma_find_dash_none(b);
            }
            let a = crate::resp::copy_range(source, 0, f);
            let b = crate::resp::copy_range(source, f + 1, n);
            proof {
                assert(a@ =~= source@.take(f as int));
                assert(b@ =~= source@.skip(f as int + 1));
            }
            Some((a, b))
        },
    }
}

/// One stream entry: its identifier and its field pairs in stored order.
#[derive(Debug, PartialEq, Eq)]
pub struct StreamEntry {
    pub id: StreamEntryID,
    pub fields: Vec<(Vec<u8>, Vec<u8>)>,
}

/// The abstract value of one entry.
pub struct EntryV {
    pub id: StreamEntryID,
    pub fields: Seq<(Seq<u8>, Seq<u8>)>,
}

/// The abstract values of a vector of field pairs.
pub open spec fn field_views(s: Seq<(Vec<u8>, Vec<u8>)>) -> Seq<(Seq<u8>, Seq<u8>)> {
    s.map(|_i: int, p: (Vec<u8>, Vec<u8>)| (p.0@, p.1@))
}

impl View for StreamEntry {
    type V = EntryV;

    open spec fn view(&self) -> EntryV {
        EntryV { id: self.id, fields: field_views(self.fields@) }
    }
}

/// The ordered entries of a stream, as a query returns them.
#[derive(Debug, PartialEq, Eq)]
pub struct StramValue(pub Vec<StreamEntry>);

/// The abstract values of a vector of entries.
pub open spec fn entry_views(s: Seq<StreamEntry>) -> Seq<EntryV> {
    s.map(|_i: int, e: StreamEntry| e@)
}

/// An append-only stream: its entries in append order and the last
/// identifier it assigned.
#[derive(Debug, PartialEq, Eq)]
pub struct StreamRecord {
    pub value: Vec<StreamEntry>,
    pub last_id: StreamEntryID,
}

/// The abstract value of a stream.
pub struct StreamV {
    pub entries: Seq<EntryV>,
    pub last: StreamEntryID,
}

impl View for StreamRecord {
    type V = StreamV;

    open spec fn view(&self) -> StreamV {
        StreamV { entries: entry_views(self.value@), last: self.last_id }
    }
}

impl StreamV {
    /// The well-formed streams: identifiers strictly increase along the
    /// entries, every assigned identifier is above `0-0`, and none is above
    /// the recorded last.
    pub open spec fn wf(self) -> bool {
        &&& forall|i: int, j: int|
            0 <= i < j < self.entries.len() ==> id_lt(
                #[trigger] self.entries[i].id,
                #[trigger] self.entries[j].id,
            )
        &&& forall|i: int|
            0 <= i < self.entries.len() ==> id_le(#[trigger] self.entries[i].id, self.last)
        &&& forall|i: int|
            0 <= i < self.entries.len() ==> id_lt(id_zero(), #[trigger] self.entries[i].id)
    }
}

/// What one append does to a stream: the requested identifier is resolved,
/// then rejected when it is `0-0` or does not exceed the last assigned
/// identifier, and otherwise appended.
pub open spec fn xadd_spec(
    st: StreamV,
    idtok: Seq<u8>,
    fields: Seq<(Seq<u8>, Seq<u8>)>,
    now_ms: u128,
) -> (StreamV, Result<StreamEntryID, StreamRecordError>) {
    match new_id_spec(idtok, st.last, now_ms) {
        None => (
            st,
            Err(StreamRecordError::StreamEntryIDError(StreamEntryIDError::InvalidFormat)),
        ),
        Some(id) => if id == id_zero() {
            (st, Err(StreamRecordError::MustBeGreater00))
        } else if !id_lt(st.last, id) {
            (st, Err(StreamRecordError::EqualOrSmallerThanLastID))
        } else {
            (
                StreamV { entries: st.entries.push(EntryV { id, fields }), last: id },
                Ok(id),
            )
        },
    }
}

/// The predicate selecting identifiers in `[lo, hi]`.
pub open spec fn in_range_pred(lo: StreamEntryID, hi: StreamEntryID) -> spec_fn(EntryV) -> bool {
    |e: EntryV| id_le(lo, e.id) && id_le(e.id, hi)
}

/// The entries of `s` whose identifiers lie in `[lo, hi]`, in order.
pub open spec fn entries_in_range(s: Seq<EntryV>, lo: StreamEntryID, hi: StreamEntryID) -> Seq<
    EntryV,
> {
    s.filter(in_range_pred(lo, hi))
}

/// The predicate selecting identifiers strictly above `lo`.
pub open spec fn after_pred(lo: StreamEntryID) -> spec_fn(EntryV) -> bool {
    |e: EntryV| id_lt(lo, e.id)
}

/// The entries of `s` whose identifiers lie strictly above `lo`, in order.
pub open spec fn entries_after(s: Seq<EntryV>, lo: StreamEntryID) -> Seq<EntryV> {
    s.filter(after_pred(lo))
}

/// What a range query resolves its endpoints to and returns: `-` stands for
/// the smallest stored identifier (`0-0` on an empty stream), `+` for the
/// largest (the maximal identifier on an empty stream).
pub open spec fn xrange_spec(st: StreamV, start: Seq<u8>, end: Seq<u8>) -> Result<
    Seq<EntryV>,
    StreamRecordError,
> {
    let lo = if start == seq![45u8] {
        if st.entries.len() > 0 {
            Some(st.entries[0].id)
        } else {
            Some(id_zero())
        }
    } else {
        parse_exact_spec(start)
    };
    let hi = if end == seq![43u8] {
        if st.entries.len() > 0 {
            Some(st.entries[st.entries.len() - 1].id)
        } else {
            Some(StreamEntryID { ms: u128::MAX, seq: u64::MAX })
        }
    } else {
        parse_exact_spec(end)
    };
    match (lo, hi) {
        (Some(l), Some(h)) => Ok(entries_in_range(st.entries, l, h)),
        _ => Err(StreamRecordError::StreamEntryIDError(StreamEntryIDError::InvalidFormat)),
    }
}

/// Copies one entry.
fn copy_entry(e: &StreamEntry) -> (r: StreamEntry)
    ensures
        r@ == e@,
{
    let mut fields: Vec<(Vec<u8>, Vec<u8>)> = Vec::new();
    let mut i: usize = 0;
    while i < e.fields.len()
        invariant
            i <= e.fields@.len(),
            fields@.len() == i,
            field_views(fields@) =~= field_views(e.fields@).take(i as int),
        decreases e.fields@.len() - i,
    {
        let k = crate::resp::copy_bytes(&e.fields[i].0);
        let v = crate::resp::copy_bytes(&e.fields[i].1);
        let ghost kk = k@;
        let ghost vv = v@;
        let ghost pair = (k, v);
        let ghost prev = fields@;
        fields.push((k, v));
        proof {
            assert(fields@[i as int] == pair);
            assert(field_views(fields@)[i as int] == (kk, vv));
            assert(field_views(e.fields@)[i as int] == (kk, vv));
            assert(field_views(fields@) =~= field_views(e.fields@).take(i as int + 1));
        }
        i = i + 1;
    }
    let r = StreamEntry { id: e.id, fields };
    proof {
        assert(field_views(e.fields@).take(e.fields@.len() as int) =~= field_views(e.fields@));
    }
    r
}

impl StreamRecord {
    /// A fresh stream: no entries, last identifier `0-0`.
    pub fn new() -> (r: StreamRecord)
        ensures
            r@.entries == Seq::<EntryV>::empty(),
            r@.last == id_zero(),
            r@.wf(),
    {
        let r = StreamRecord { value: Vec::new(), last_id: StreamEntryID { ms: 0, seq: 0 } };
        proof {
            assert(entry_views(r.value@) =~= Seq::<EntryV>::empty());
        }
        r
    }

    /// Appends one entry under the requested identifier, enforcing strict
    /// monotonic growth of assigned identifiers.
    pub fn xadd(
        &mut self,
        field: &Vec<u8>,
        value: Vec<(Vec<u8>, Vec<u8>)>,
        now_ms: u128,
    ) -> (r: Result<StreamEntryID, StreamRecordError>)
        requires
            old(self)@.wf(),
        ensures
            final(self)@.wf(),
            (final(self)@, r) == xadd_spec(old(self)@, field@, field_views(value@), now_ms),
            r is Ok ==> id_lt(old(self)@.last, r.unwrap()) && final(self)@.last == r.unwrap(),
    {
        let ghost fv = field_views(value@);
        let id = match StreamEntryID::new(field, &self.last_id, now_ms) {
            Ok(id) => id,
            Err(e) => {
                return Err(StreamRecordError::StreamEntryIDError(e));
            },
        };
        if id.ms == 0 && id.seq == 0 {
            return Err(StreamRecordError::MustBeGreater00);
        }
        if !self.last_id.lt(&id) {
            return Err(StreamRecordError::EqualOrSmallerThanLastID);
        }
        let entry = StreamEntry { id, fields: value };
        self.value.push(entry);
        self.last_id = id;
        proof {
            assert(entry_views(self.value@) =~= entry_views(old(self).value@).push(
                EntryV { id, fields: fv },
            ));
        }
        Ok(id)
    }

    /// Returns the entries whose identifiers lie in the requested range,
    /// with `-` and `+` as the smallest and largest endpoints.
    pub fn xrange(&self, start: &Vec<u8>, end: &Vec<u8>) -> (r: Result<
        StramValue,
        StreamRecordError,
    >)
        ensures
            match r {
                Ok(v) => xrange_spec(self@, start@, end@) == Ok::<_, StreamRecordError>(
                    entry_views(v.0@),
                ),
                Err(e) => xrange_spec(self@, start@, end@) == Err::<Seq<EntryV>, _>(e),
            },
    {
        let lo: StreamEntryID = if start.len() == 1 && start[0] == 45 {
            proof {
                assert(start@ =~= seq![45u8]);
            }
            if self.value.len() > 0 {
                self.value[0].id
            } else {
                StreamEntryID { ms: 0, seq: 0 }
            }
        } else {
            proof {
                if start@ == seq![45u8] {
                    assert(start@.len() == 1 && start@[0] == 45);
                    assert(false);
                }
            }
            match StreamEntryID::parse_exact(start) {
                Ok(id) => id,
                Err(e) => {
                    return Err(StreamRecordError::StreamEntryIDError(e));
                },
            }
        };
        let hi: StreamEntryID = if end.len() == 1 && end[0] == 43 {
            proof {
                assert(end@ =~= seq![43u8]);
            }
            if self.value.len() > 0 {
                self.value[self.value.len() - 1].id
            } else {
                StreamEntryID { ms: u128::MAX, seq: u64::MAX }
            }
        } else {
            proof {
                if end@ == seq![43u8] {
                    assert(end@.len() == 1 && end@[0] == 43);
                    assert(false);
                }
            }
            match StreamEntryID::parse_exact(end) {
                Ok(id) => id,
                Err(e) => {
                    return Err(StreamRecordError::StreamEntryIDError(e));
                },
            }
        };
        let mut out: Vec<StreamEntry> = Vec::new();
        let mut i: usize = 0;
        proof {
            reveal(Seq::filter);
            assert(entry_views(self.value@).take(0) =~= Seq::<EntryV>::empty());
            assert(entry_views(out@) =~= Seq::<EntryV>::empty());
            assert(entries_in_range(Seq::<EntryV>::empty(), lo, hi) =~= Seq::<EntryV>::empty());
        }
        while i < self.value.len()
            invariant
                i <= self.value@.len(),
                entry_views(out@) == entries_in_range(
                    entry_views(self.value@).take(i as int),
                    lo,
                    hi,
                ),
            decreases self.value@.len() - i,
        {
            let ghost pre = entry_views(self.value@).take(i as int);
            let ghost cur = self.value@[i as int]@;
            let ghost prev_out = out@;
            let keep = {
                let e = &self.value[i];
                lo.le(&e.id) && e.id.le(&hi)
            };
            proof {
                assert(entry_views(self.value@).take(i as int + 1) =~= pre.push(cur));
                assert(pre.push(cur).drop_last() =~= pre);
                assert(pre.push(cur).last() == cur);
                assert(keep == (id_le(lo, cur.id) && id_le(cur.id, hi)));
                pre.lemma_filter_push(cur, in_range_pred(lo, hi));
                assert(in_range_pred(lo, hi)(cur) == keep);
                assert(entries_in_range(pre.push(cur), lo, hi) == if keep {
                    entries_in_range(pre, lo, hi).push(cur)
                } else {
                    entries_in_range(pre, lo, hi)
                });
            }
            if keep {
                let copied = copy_entry(&self.value[i]);
                out.push(copied);
                proof {
                    assert(entry_views(out@) =~= entry_views(prev_out).push(cur));
                }
            }
            i = i + 1;
        }
        proof {
            assert(entry_views(self.value@).take(self.value@.len() as int) =~= entry_views(
                self.value@,
            ));
        }
        Ok(StramValue(out))
    }
}

/// What a read past an identifier returns: the entries strictly above it.
pub open spec fn xread_spec(st: StreamV, idtok: Seq<u8>) -> Result<Seq<EntryV>, StreamRecordError> {
    match parse_exact_spec(idtok) {
        None => Err(StreamRecordError::StreamEntryIDError(StreamEntryIDError::InvalidFormat)),
        Some(l) => Ok(entries_after(st.entries, l)),
    }
}

impl StreamRecord {
    /// Returns the entries whose identifiers lie strictly above the given
    /// one.
    pub fn xread(&self, id: &Vec<u8>) -> (r: Result<StramValue, StreamRecordError>)
        ensures
            match r {
                Ok(v) => xread_spec(self@, id@) == Ok::<_, StreamRecordError>(entry_views(v.0@)),
                Err(e) => xread_spec(self@, id@) == Err::<Seq<EntryV>, _>(e),
            },
    {
        let lo = match StreamEntryID::parse_exact(id) {
            Ok(l) => l,
            Err(e) => {
                return Err(StreamRecordError::StreamEntryIDError(e));
            },
        };
        let mut out: Vec<StreamEntry> = Vec::new();
        let mut i: usize = 0;
        proof {
            reveal(Seq::filter);
            assert(entry_views(self.value@).take(0) =~= Seq::<EntryV>::empty());
            assert(entry_views(out@) =~= Seq::<EntryV>::empty());
            assert(entries_after(Seq::<EntryV>::empty(), lo) =~= Seq::<EntryV>::empty());
        }
        while i < self.value.len()
            invariant
                i <= self.value@.len(),
                entry_views(out@) == entries_after(entry_views(self.value@).take(i as int), lo),
            decreases self.value@.len() - i,
        {
            let ghost pre = entry_views(self.value@).take(i as int);
            let ghost cur = self.value@[i as int]@;
            let ghost prev_out = out@;
            let keep = {
                let e = &self.value[i];
                lo.lt(&e.id)
            };
            proof {
                assert(entry_views(self.value@).take(i as int + 1) =~= pre.push(cur));
                pre.lemma_filter_push(cur, after_pred(lo));
                assert(after_pred(lo)(cur) == keep);
            }
            if keep {
                let copied = copy_entry(&self.value[i]);
                out.push(copied);
                proof {
                    assert(entry_views(out@) =~= entry_views(prev_out).push(cur));
                }
            }
            i = i + 1;
        }
        proof {
            assert(entry_views(self.value@).take(self.value@.len() as int) =~= entry_views(
                self.value@,
            ));
        }
        Ok(StramValue(out))
    }
}

/// The identifiers stored in a well-formed stream form a strictly
/// increasing sequence under the lexicographic order.
pub proof fn lemma_stream_ids_increase(st: StreamV)
    requires
        st.wf(),
    ensures
        forall|i: int, j: int|
            0 <= i < j < st.entries.len() ==> id_lt(
                #[trigger] st.entries[i].id,
                #[trigger] st.entries[j].id,
            ),
{
}

/// Two consecutive successful appends assign strictly increasing
/// identifiers: the second identifier exceeds the first.
pub proof fn lemma_xadd_monotonic(
    st: StreamV,
    tok1: Seq<u8>,
    f1: Seq<(Seq<u8>, Seq<u8>)>,
    now1: u128,
    tok2: Seq<u8>,
    f2: Seq<(Seq<u8>, Seq<u8>)>,
    now2: u128,
)
    requires
        xadd_spec(st, tok1, f1, now1).1 is Ok,
        xadd_spec(xadd_spec(st, tok1, f1, now1).0, tok2, f2, now2).1 is Ok,
    ensures
        id_lt(
            xadd_spec(st, tok1, f1, now1).1.unwrap(),
            xadd_spec(xadd_spec(st, tok1, f1, now1).0, tok2, f2, now2).1.unwrap(),
        ),
{
}

/// A `-` at `j` with none before it is the first.
proof fn lemma_find_dash_at(s: Seq<u8>, j: int)
    requires
        0 <= j < s.len(),
        s[j] == 45,
        forall|k: int| 0 <= k < j ==> s[k] != 45,
    ensures
        find_dash(s) == Some(j),
    decreases j,
{
    if j > 0 {
        let t = s.drop_first();
        assert(forall|k: int| 0 <= k < t.len() ==> t[k] == s[k + 1]);
        lemma_find_dash_at(t, j - 1);
    }
}

/// A string with some `-` has a first one.
proof fn lemma_find_dash_some(s: Seq<u8>, j: int)
    requires
        0 <= j < s.len(),
        s[j] == 45,
    ensures
        find_dash(s) is Some,
    decreases j,
{
    if s[0] != 45 {
        let t = s.drop_first();
        assert(t[j - 1] == s[j]);
        lemma_find_dash_some(t, j - 1);
    }
}

/// A string without `-` has no first one.
proof fn lemma_find_dash_none(s: Seq<u8>)
    requires
        forall|k: int| 0 <= k < s.len() ==> s[k] != 45,
    ensures
        find_dash(s) is None,
    decreases s.len(),
{
    if s.len() > 0 {
        let t = s.drop_first();
        assert(forall|k: int| 0 <= k < t.len() ==> t[k] == s[k + 1]);
        lemma_find_dash_none(t);
    }
}

} // verus!
