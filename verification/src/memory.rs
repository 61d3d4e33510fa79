//! A self-contained single-owner keyspace of strings and lists, with
//! relative time-to-live on strings checked against the creation instant.
use vstd::prelude::*;
use crate::assoc::{
    keys_distinct, lemma_lookup_at, lemma_lookup_none, lemma_map_after_push,
    lemma_map_after_remove, lookup,
};
use crate::resp::views_of;
use crate::store::{bytes_eq, clamp_range};

verus! {

/// A value of the keyspace: a string with its optional time-to-live and
/// creation instant, or a list with its creation instant.
#[derive(Debug, PartialEq, Eq)]
enum MemValue {
    Str(Vec<u8>, Option<u64>, u64),
    List(Vec<Vec<u8>>, u64),
}

/// The abstract value of one binding.
pub enum MemV {
    Str { data: Seq<u8>, duration: Option<u64>, created: u64 },
    List { items: Seq<Seq<u8>>, created: u64 },
}

impl View for MemValue {
    type V = MemV;

    closed spec fn view(&self) -> MemV {
        match self {
            MemValue::Str(d, t, c) => MemV::Str { data: d@, duration: *t, created: *c },
            MemValue::List(l, c) => MemV::List { items: views_of(l@), created: *c },
        }
    }
}

impl MemV {
    /// A string binding is stale when its time-to-live is set and at least
    /// that many milliseconds have passed since it was created.
    pub open spec fn stale(self, now_ms: u64) -> bool {
        match self {
            MemV::Str { duration: Some(d), created, .. } => (if now_ms >= created {
                now_ms - created
            } else {
                0
            }) >= d,
            _ => false,
        }
    }
}

/// What `get` returns: the bound string, unless the key is absent, stale,
/// or a list; a stale binding is discarded.
pub open spec fn mem_get_spec(m: Map<Seq<u8>, MemV>, k: Seq<u8>, now_ms: u64) -> (
    Map<Seq<u8>, MemV>,
    Option<Seq<u8>>,
) {
    if m.contains_key(k) {
        match m[k] {
            MemV::Str { data, .. } => if m[k].stale(now_ms) {
                (m.remove(k), None)
            } else {
                (m, Some(data))
            },
            MemV::List { .. } => (m, None),
        }
    } else {
        (m, None)
    }
}

/// What `rpush` does: creates a missing key as a one-element list, appends
/// to a list, and leaves a string alone reporting zero.
pub open spec fn mem_rpush_spec(
    m: Map<Seq<u8>, MemV>,
    k: Seq<u8>,
    v: Seq<u8>,
    now_ms: u64,
) -> (Map<Seq<u8>, MemV>, nat) {
    if !m.contains_key(k) {
        (m.insert(k, MemV::List { items: seq![v], created: now_ms }), 1)
    } else {
        match m[k] {
            MemV::List { items, created } => (
                m.insert(k, MemV::List { items: items.push(v), created }),
                items.len() + 1,
            ),
            _ => (m, 0),
        }
    }
}

/// What `lrange` returns: the clamped inclusive slice of the bound list,
/// and nothing at all for a missing key or a string.
pub open spec fn mem_lrange_spec(m: Map<Seq<u8>, MemV>, k: Seq<u8>, start: int, stop: int) -> Option<
    Seq<Seq<u8>>,
> {
    if m.contains_key(k) {
        match m[k] {
            MemV::List { items, .. } => {
                let r = clamp_range(items.len() as int, start, stop);
                if r.0 > r.1 || r.0 >= items.len() {
                    Some(Seq::empty())
                } else {
                    Some(items.subrange(r.0, r.1 + 1))
                }
            },
            _ => None,
        }
    } else {
        None
    }
}

/// The keyspace: byte-string keys bound to at most one value each.
pub struct Memory {
    data: Vec<(Vec<u8>, MemValue)>,
}

impl View for Memory {
    type V = Map<Seq<u8>, MemV>;

    closed spec fn view(&self) -> Map<Seq<u8>, MemV> {
        crate::assoc::assoc_map(self.data@)
    }
}

impl Memory {
    /// Keys are bound at most once.
    pub closed spec fn wf(self) -> bool {
        keys_distinct(self.data@)
    }

    /// A fresh, empty keyspace.
    pub fn new() -> (r: Memory)
        ensures
            r.wf(),
            r@ == Map::<Seq<u8>, MemV>::empty(),
    {
        let r = Memory { data: Vec::new() };
        proof {
            assert(r@ =~= Map::<Seq<u8>, MemV>::empty());
        }
        r
    }

    /// The position of `key`, if bound.
    fn find(&self, key: &Vec<u8>) -> (r: Option<usize>)
        requires
            self.wf(),
        ensures
            match r {
                Some(i) => {
                    &&& i < self.data@.len()
                    &&& self.data@[i as int].0@ == key@
                    &&& self@.contains_key(key@)
                    &&& self@[key@] == self.data@[i as int].1@
                },
                None => !self@.contains_key(key@),
            },
    {
        let mut i: usize = 0;
        while i < self.data.len()
            invariant
                self.wf(),
                i <= self.data@.len(),
                forall|j: int| 0 <= j < i ==> (#[trigger] self.data@[j]).0@ != key@,
            decreases self.data@.len() - i,
        {
            if bytes_eq(&self.data[i].0, key) {
                proof {
                    lemma_lookup_at(self.data@, key@, i as int);
                }
                return Some(i);
            }
            i = i + 1;
        }
        proof {
            lemma_lookup_none(self.data@, key@);
        }
        None
    }

    /// Binds `key` to the string `value` with the given time-to-live,
    /// stamped with the creation instant, whatever was there before.
    pub fn set(&mut self, key: Vec<u8>, value: Vec<u8>, duration: Option<u64>, now_ms: u64)
        requires
            old(self).wf(),
        ensures
            final(self).wf(),
            final(self)@ == old(self)@.insert(
                key@,
                MemV::Str { data: value@, duration, created: now_ms },
            ),
    {
        let ghost s0 = self.data@;
        match self.find(&key) {
            Some(i) => {
                self.data.remove(i);
                proof {
                    lemma_map_after_remove(s0, i as int);
                }
            },
            None => {},
        }
        let ghost s1 = self.data@;
        let rec = MemValue::Str(value, duration, now_ms);
        proof {
            assert(!self@.contains_key(key@));
            assert(lookup(s1, key@) is None);
        }
        self.data.push((key, rec));
        proof {
            lemma_map_after_push(s1, (key, rec));
            assert(self@ =~= old(self)@.insert(
                key@,
                MemV::Str { data: value@, duration, created: now_ms },
            ));
        }
    }

    /// The string bound to `key`, unless the key is absent, stale, or a
    /// list; a stale binding is discarded.
    pub fn get(&mut self, key: &Vec<u8>, now_ms: u64) -> (r: Option<Vec<u8>>)
        requires
            old(self).wf(),
        ensures
            final(self).wf(),
            final(self)@ == mem_get_spec(old(self)@, key@, now_ms).0,
            match r {
                Some(v) => mem_get_spec(old(self)@, key@, now_ms).1 == Some(v@),
                None => mem_get_spec(old(self)@, key@, now_ms).1 is None,
            },
    {
        let ghost s0 = self.data@;
        match self.find(key) {
            None => None,
            Some(i) => {
                let ghost rv = self.data@[i as int].1@;
                let verdict: (bool, bool) = match &self.data[i].1 {
                    MemValue::Str(_, t, c) => {
                        let elapsed: u64 = if now_ms >= *c {
                            now_ms - *c
                        } else {
                            0
                        };
                        let expired = match t {
                            Some(dur) => elapsed >= *dur,
                            None => false,
                        };
                        (true, expired)
                    },
                    MemValue::List(_, _) => (false, false),
                };
                if !verdict.0 {
                    return None;
                }
                if verdict.1 {
                    self.data.remove(i);
                    proof {
                        lemma_map_after_remove(s0, i as int);
                    }
                    None
                } else {
                    match &self.data[i].1 {
                        MemValue::Str(d, _, _) => Some(crate::resp::copy_bytes(d)),
                        MemValue::List(_, _) => {
                            proof {
                                assert(rv is Str);
                                assert(false);
                            }
                            None
                        },
                    }
                }
            },
        }
    }

    /// Appends `value` at the tail of the list at `key`, creating a
    /// missing key as a fresh list; a string is left alone and reported as
    /// length zero.
    pub fn rpush(&mut self, key: Vec<u8>, value: Vec<u8>, now_ms: u64) -> (n: usize)
        requires
            old(self).wf(),
        ensures
            final(self).wf(),
            final(self)@ == mem_rpush_spec(old(self)@, key@, value@, now_ms).0,
            n as nat == mem_rpush_spec(old(self)@, key@, value@, now_ms).1,
    {
        let ghost m0 = self@;
        let ghost s0 = self.data@;
        match self.find(&key) {
            None => {
                let mut l: Vec<Vec<u8>> = Vec::new();
                l.push(value);
                let rec = MemValue::List(l, now_ms);
                self.data.push((key, rec));
                proof {
                    lemma_map_after_push(s0, (key, rec));
                    assert(views_of(rec->List_0@) =~= seq![value@]);
                    assert(self@ =~= mem_rpush_spec(m0, key@, value@, now_ms).0);
                }
                1
            },
            Some(i) => {
                let pair = self.data.remove(i);
                proof {
                    lemma_map_after_remove(s0, i as int);
                }
                let ghost s1 = self.data@;
                let k0 = pair.0;
                match pair.1 {
                    MemValue::List(mut l, created) => {
                        let ghost lv = views_of(l@);
                        l.push(value);
                        let n = l.len();
                        let rec = MemValue::List(l, created);
                        proof {
                            assert(!self@.contains_key(key@));
                            assert(lookup(s1, k0@) is None);
                        }
                        self.data.push((k0, rec));
                        proof {
                            lemma_map_after_push(s1, (k0, rec));
                            assert(views_of(rec->List_0@) =~= lv.push(value@));
                            assert(self@ =~= mem_rpush_spec(m0, key@, value@, now_ms).0);
                        }
                        n
                    },
                    other => {
                        proof {
                            assert(!self@.contains_key(key@));
                            assert(lookup(s1, k0@) is None);
                            assert(other@ == m0[key@]);
                        }
                        self.data.push((k0, other));
                        proof {
                            lemma_map_after_push(s1, (k0, other));
                            assert(self@ =~= m0);
                        }
                        0
                    },
                }
            },
        }
    }

    /// The clamped inclusive slice of the list at `key`; a missing key or
    /// a string yields nothing at all.
    pub fn lrange(&self, key: &Vec<u8>, start: i64, stop: i64) -> (r: Option<Vec<Vec<u8>>>)
        requires
            self.wf(),
        ensures
            match r {
                Some(v) => mem_lrange_spec(self@, key@, start as int, stop as int) == Some(
                    views_of(v@),
                ),
                None => mem_lrange_spec(self@, key@, start as int, stop as int) is None,
            },
    {
        match self.find(key) {
            None => None,
            Some(i) => {
                match &self.data[i].1 {
                    MemValue::Str(_, _, _) => None,
                    MemValue::List(l, _) => {
                        let ghost lv = views_of(l@);
                        let len = l.len();
                        let s0i: i128 = if start < 0 {
                            len as i128 + start as i128
                        } else {
                            start as i128
                        };
                        let s1i: i128 = if s0i < 0 {
                            0
                        } else {
                            s0i
                        };
                        let e0i: i128 = if stop < 0 {
                            len as i128 + stop as i128
                        } else {
                            stop as i128
                        };
                        let e1i: i128 = if e0i > len as i128 - 1 {
                            len as i128 - 1
                        } else {
                            e0i
                        };
                        let mut out: Vec<Vec<u8>> = Vec::new();
                        proof {
                            assert(views_of(out@) =~= Seq::<Seq<u8>>::empty());
                        }
                        if s1i > e1i || s1i >= len as i128 {
                            return Some(out);
                        }
                        let lo = s1i as usize;
                        let hi = e1i as usize;
                        let mut j: usize = lo;
                        proof {
                            assert(views_of(out@) =~= lv.subrange(lo as int, lo as int));
                        }
                        while j <= hi
                            invariant
                                lo <= j <= hi + 1,
                                hi < len,
                                len == l@.len(),
                                lv == views_of(l@),
                                views_of(out@) == lv.subrange(lo as int, j as int),
                            decreases hi + 1 - j,
                        {
                            let ghost prev = out@;
                            out.push(crate::resp::copy_bytes(&l[j]));
                            proof {
                                assert(views_of(out@) =~= views_of(prev).push(lv[j as int]));
                                assert(views_of(out@) =~= lv.subrange(lo as int, j as int + 1));
                            }
                            j = j + 1;
                        }
                        Some(out)
                    },
                }
            },
        }
    }
}

} // verus!
