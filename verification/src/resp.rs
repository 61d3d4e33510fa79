//! Reply values of the wire protocol and their encoding, together with the
//! request tokenizer that turns raw frames into command token vectors.
use vstd::prelude::*;
use crate::num::{dec_i64, dec_nat, fmt_i64, fmt_u64};

verus! {

/// Carriage return.
pub const CR: u8 = 13;

/// Line feed.
pub const LF: u8 = 10;

/// A reply value of the protocol.
#[derive(Debug, PartialEq, Eq)]
pub enum RespValue {
    SimpleString(Vec<u8>),
    Error(Vec<u8>),
    Integer(i64),
    BulkString(Option<Vec<u8>>),
    Array(Vec<RespValue>),
    Null,
    NullArray,
}

/// The mathematical shape of a reply value: the same tree over sequences.
pub enum RespV {
    SimpleString(Seq<u8>),
    Error(Seq<u8>),
    Integer(i64),
    BulkString(Option<Seq<u8>>),
    Array(Seq<RespV>),
    Null,
    NullArray,
}

impl RespValue {
    /// The abstract value of a reply, with every byte vector taken to its
    /// sequence.
    pub open spec fn deep(self) -> RespV
        decreases self,
    {
        match self {
            RespValue::SimpleString(s) => RespV::SimpleString(s@),
            RespValue::Error(e) => RespV::Error(e@),
            RespValue::Integer(n) => RespV::Integer(n),
            RespValue::BulkString(Some(s)) => RespV::BulkString(Some(s@)),
            RespValue::BulkString(None) => RespV::BulkString(None),
            RespValue::Array(items) => RespV::Array(deep_list(items@)),
            RespValue::Null => RespV::Null,
            RespValue::NullArray => RespV::NullArray,
        }
    }
}

/// The abstract values of a sequence of replies.
pub open spec fn deep_list(s: Seq<RespValue>) -> Seq<RespV>
    decreases s,
{
    if s.len() == 0 {
        Seq::empty()
    } else {
        seq![s.first().deep()] + deep_list(s.drop_first())
    }
}

/// `deep_list` maps the sequence pointwise.
pub proof fn lemma_deep_list(s: Seq<RespValue>)
    ensures
        deep_list(s).len() == s.len(),
        forall|i: int| 0 <= i < s.len() ==> deep_list(s)[i] == s[i].deep(),
    decreases s,
{
    if s.len() > 0 {
        lemma_deep_list(s.drop_first());
    }
}

/// Appending one reply extends the abstract list by its abstract value.
pub proof fn lemma_deep_list_push(s: Seq<RespValue>, v: RespValue)
    ensures
        deep_list(s.push(v)) == deep_list(s).push(v.deep()),
    decreases s,
{
    assert(s.push(v).first() == if s.len() == 0 { v } else { s.first() });
    if s.len() == 0 {
        assert(s.push(v).drop_first() =~= Seq::<RespValue>::empty());
        assert(deep_list(Seq::<RespValue>::empty()) == Seq::<RespV>::empty());
        assert(deep_list(s.push(v)) =~= deep_list(s).push(v.deep()));
    } else {
        assert(s.push(v).drop_first() =~= s.drop_first().push(v));
        lemma_deep_list_push(s.drop_first(), v);
        assert(deep_list(s.push(v)) =~= deep_list(s).push(v.deep()));
    }
}

/// The two-byte line terminator.
pub open spec fn crlf() -> Seq<u8> {
    seq![13u8, 10u8]
}

/// The bytes of the fixed error tag `ERR` followed by a space.
pub open spec fn err_tag() -> Seq<u8> {
    seq![69u8, 82u8, 82u8, 32u8]
}

/// Wire encoding of a reply value.
pub open spec fn encode_v(v: RespV) -> Seq<u8>
    decreases v,
{
    match v {
        RespV::SimpleString(s) => seq![43u8] + s + crlf(),
        RespV::Error(e) => seq![45u8] + err_tag() + e + crlf(),
        RespV::Integer(n) => seq![58u8] + dec_i64(n) + crlf(),
        RespV::BulkString(Some(s)) => seq![36u8] + dec_nat(s.len()) + crlf() + s + crlf(),
        RespV::BulkString(None) => seq![36u8, 45u8, 49u8] + crlf(),
        RespV::Null => seq![36u8, 45u8, 49u8] + crlf(),
        RespV::NullArray => seq![42u8, 45u8, 49u8] + crlf(),
        RespV::Array(items) => seq![42u8] + dec_nat(items.len()) + crlf() + encode_items(items),
    }
}

/// Concatenated encodings of the members of an array.
pub open spec fn encode_items(items: Seq<RespV>) -> Seq<u8>
    decreases items,
{
    if items.len() == 0 {
        Seq::empty()
    } else {
        encode_v(items.first()) + encode_items(items.drop_first())
    }
}

/// Appending one member appends its encoding.
pub proof fn lemma_encode_items_push(items: Seq<RespV>, v: RespV)
    ensures
        encode_items(items.push(v)) == encode_items(items) + encode_v(v),
    decreases items,
{
    assert(items.push(v).first() == if items.len() == 0 { v } else { items.first() });
    if items.len() == 0 {
        assert(items.push(v).drop_first() =~= Seq::<RespV>::empty());
        assert(encode_items(Seq::<RespV>::empty()) == Seq::<u8>::empty());
        assert(encode_items(items.push(v)) =~= encode_items(items) + encode_v(v));
    } else {
        assert(items.push(v).drop_first() =~= items.drop_first().push(v));
        lemma_encode_items_push(items.drop_first(), v);
        assert(encode_items(items.push(v)) =~= encode_items(items) + encode_v(v));
    }
}

/// Appends all of `src` to `dst`.
pub fn push_all(dst: &mut Vec<u8>, src: &Vec<u8>)
    ensures
        final(dst)@ == old(dst)@ + src@,
{
    let mut i: usize = 0;
    while i < src.len()
        invariant
            i <= src@.len(),
            dst@ =~= old(dst)@ + src@.take(i as int),
        decreases src@.len() - i,
    {
        dst.push(src[i]);
        proof {
            assert(dst@ =~= old(dst)@ + src@.take(i as int + 1));
        }
        i = i + 1;
    }
    proof {
        assert(src@.take(src@.len() as int) =~= src@);
    }
}

/// Serializes a reply value into its wire bytes. Encoding is total: it
/// succeeds on every value.
pub fn encode(v: &RespValue) -> (r: Vec<u8>)
    ensures
        r@ == encode_v(v.deep()),
    decreases *v,
{
    let mut r: Vec<u8> = Vec::new();
    match v {
        RespValue::SimpleString(s) => {
            r.push(43);
            push_all(&mut r, s);
            r.push(CR);
            r.push(LF);
            proof {
                assert(r@ =~= encode_v(v.deep()));
            }
        },
        RespValue::Error(e) => {
            r.push(45);
            r.push(69);
            r.push(82);
            r.push(82);
            r.push(32);
            push_all(&mut r, e);
            r.push(CR);
            r.push(LF);
            proof {
                assert(r@ =~= encode_v(v.deep()));
            }
        },
        RespValue::Integer(n) => {
            r.push(58);
            let d = fmt_i64(*n);
            push_all(&mut r, &d);
            r.push(CR);
            r.push(LF);
            proof {
                assert(r@ =~= encode_v(v.deep()));
            }
        },
        RespValue::BulkString(Some(s)) => {
            r.push(36);
            let d = fmt_u64(s.len() as u64);
            push_all(&mut r, &d);
            r.push(CR);
            r.push(LF);
            push_all(&mut r, s);
            r.push(CR);
            r.push(LF);
            proof {
                assert(r@ =~= encode_v(v.deep()));
            }
        },
        RespValue::BulkString(None) => {
            r.push(36);
            r.push(45);
            r.push(49);
            r.push(CR);
            r.push(LF);
            proof {
                assert(r@ =~= encode_v(v.deep()));
            }
        },
        RespValue::Null => {
            r.push(36);
            r.push(45);
            r.push(49);
            r.push(CR);
            r.push(LF);
            proof {
                assert(r@ =~= encode_v(v.deep()));
            }
        },
        RespValue::NullArray => {
            r.push(42);
            r.push(45);
            r.push(49);
            r.push(CR);
            r.push(LF);
            proof {
                assert(r@ =~= encode_v(v.deep()));
            }
        },
        RespValue::Array(items) => {
            r.push(42);
            let d = fmt_u64(items.len() as u64);
            push_all(&mut r, &d);
            r.push(CR);
            r.push(LF);
            proof {
                lemma_deep_list(items@);
            }
            let ghost header = seq![42u8] + dec_nat(items@.len() as nat) + crlf();
            let mut i: usize = 0;
            while i < items.len()
                invariant
                    *v == RespValue::Array(*items),
                    i <= items@.len(),
                    deep_list(items@).len() == items@.len(),
                    forall|j: int|
                        0 <= j < items@.len() ==> deep_list(items@)[j] == items@[j].deep(),
                    header == seq![42u8] + dec_nat(items@.len() as nat) + crlf(),
                    r@ == header + encode_items(deep_list(items@).take(i as int)),
                decreases items@.len() - i,
            {
                proof {
                    assert(decreases_to!(*v => items@[i as int])) by {
                        assert(v->Array_0 == *items);
                        assert(decreases_to!(*v => v->Array_0));
                        assert(decreases_to!(v->Array_0 => v->Array_0@));
                        assert(decreases_to!(v->Array_0@ => v->Array_0@[i as int]));
                    }
                }
                let e = encode(&items[i]);
                push_all(&mut r, &e);
                proof {
                    let dl = deep_list(items@);
                    assert(dl.take(i as int + 1) =~= dl.take(i as int).push(dl[i as int]));
                    lemma_encode_items_push(dl.take(i as int), dl[i as int]);
                }
                i = i + 1;
            }
            proof {
                assert(deep_list(items@).take(items@.len() as int) =~= deep_list(items@));
            }
        },
    }
    r
}

/// Index of the first line terminator of the string, when there is one.
pub open spec fn find_crlf(b: Seq<u8>) -> Option<int>
    decreases b.len(),
{
    if b.len() < 2 {
        None
    } else if b[0] == 13 && b[1] == 10 {
        Some(0)
    } else {
        match find_crlf(b.drop_first()) {
            Some(j) => Some(j + 1),
            None => None,
        }
    }
}

/// What `find_crlf` returns: the first position of a line terminator.
pub proof fn lemma_find_crlf(b: Seq<u8>)
    ensures
        match find_crlf(b) {
            Some(j) => {
                &&& 0 <= j
                &&& j + 2 <= b.len()
                &&& b[j] == 13
                &&& b[j + 1] == 10
                &&& forall|k: int| 0 <= k < j ==> !(#[trigger] b[k] == 13 && b[k + 1] == 10)
            },
            None => forall|k: int| 0 <= k < b.len() - 1 ==> !(#[trigger] b[k] == 13 && b[k + 1] == 10),
        },
    decreases b.len(),
{
    if b.len() < 2 {
    } else if b[0] == 13 && b[1] == 10 {
    } else {
        lemma_find_crlf(b.drop_first());
        let t = b.drop_first();
        assert(forall|k: int| 1 <= k < b.len() ==> b[k] == t[k - 1]);
    }
}

/// A line terminator at `j`, with no carriage return before it, is the first.
pub proof fn lemma_find_crlf_at(b: Seq<u8>, j: int)
    requires
        0 <= j,
        j + 2 <= b.len(),
        b[j] == 13,
        b[j + 1] == 10,
        forall|k: int| 0 <= k < j ==> b[k] != 13,
    ensures
        find_crlf(b) == Some(j),
    decreases j,
{
    if j == 0 {
    } else {
        let t = b.drop_first();
        assert(forall|k: int| 0 <= k < t.len() ==> t[k] == b[k + 1]);
        lemma_find_crlf_at(t, j - 1);
    }
}

/// Scans for the first line terminator at or after `pos`.
pub fn find_crlf_from(b: &Vec<u8>, pos: usize) -> (r: Option<usize>)
    requires
        pos <= b@.len(),
    ensures
        match r {
            Some(p) => {
                &&& pos <= p
                &&& p + 2 <= b@.len()
                &&& find_crlf(b@.skip(pos as int)) == Some(p - pos)
            },
            None => find_crlf(b@.skip(pos as int)) is None,
        },
{
    let ghost t = b@.skip(pos as int);
    proof {
        lemma_find_crlf(t);
        assert(forall|k: int| 0 <= k < t.len() ==> t[k] == b@[k + pos]);
    }
    if b.len() < 2 || pos > b.len() - 2 {
        return None;
    }
    let mut i: usize = pos;
    while i <= b.len() - 2
        invariant
            pos <= i,
            b@.len() >= 2,
            i <= b@.len() - 1,
            t == b@.skip(pos as int),
            forall|k: int| 0 <= k < t.len() ==> t[k] == b@[k + pos],
            forall|k: int| pos <= k < i ==> !(#[trigger] b@[k] == 13 && b@[k + 1] == 10),
        decreases b@.len() - i,
    {
        if b[i] == 13 && b[i + 1] == 10 {
            proof {
                lemma_find_crlf(t);
                assert(t[i - pos] == 13 && t[i - pos + 1] == 10);
                match find_crlf(t) {
                    Some(j) => {
                        assert(!(j < i - pos));
                        assert(!(j > i - pos));
                    },
                    None => {
                        assert(false);
                    },
                }
            }
            return Some(i);
        }
        i = i + 1;
    }
    proof {
        lemma_find_crlf(t);
        match find_crlf(t) {
            Some(j) => {
                assert(b@[j + pos] == 13 && b@[j + pos + 1] == 10);
                assert(false);
            },
            None => {},
        }
    }
    None
}

/// The token, if any, that one line of a request frame contributes: the bare
/// markers `*`, `-` and `+` stand for themselves, structural headers and
/// empty lines contribute nothing, inline simple forms are unwrapped, and
/// any other line is a token as it stands.
pub open spec fn line_tokens(line: Seq<u8>) -> Seq<Seq<u8>> {
    if line =~= seq![42u8] || line =~= seq![45u8] || line =~= seq![43u8] {
        seq![line]
    } else if line.len() == 0 || line[0] == 42 || line[0] == 36 {
        Seq::empty()
    } else if line[0] == 43 || line[0] == 58 {
        seq![line.drop_first()]
    } else {
        seq![line]
    }
}

/// The token vector of a request buffer: the lines are split at each
/// terminator and each line contributes its tokens.
pub open spec fn tokens_of(b: Seq<u8>) -> Seq<Seq<u8>>
    decreases b.len(),
{
    match find_crlf(b) {
        Some(j) => if 0 <= j && j + 2 <= b.len() {
            line_tokens(b.take(j)) + tokens_of(b.skip(j + 2))
        } else {
            line_tokens(b)
        },
        None => line_tokens(b),
    }
}

/// The byte-string views of a vector of tokens.
pub open spec fn views_of(s: Seq<Vec<u8>>) -> Seq<Seq<u8>> {
    s.map(|_i: int, v: Vec<u8>| v@)
}

/// Appends the tokens of one request line.
fn push_line_tokens(r: &mut Vec<Vec<u8>>, line: Vec<u8>)
    ensures
        views_of(final(r)@) == views_of(old(r)@) + line_tokens(line@),
{
    let ghost l = line@;
    if line.len() == 1 && (line[0] == 42 || line[0] == 45 || line[0] == 43) {
        proof {
            assert(l =~= seq![l[0]]);
        }
        r.push(line);
        proof {
            assert(views_of(r@) =~= views_of(old(r)@) + line_tokens(l));
        }
    } else if line.len() == 0 || line[0] == 42 || line[0] == 36 {
        proof {
            assert(views_of(r@) =~= views_of(old(r)@) + line_tokens(l));
        }
    } else if line[0] == 43 || line[0] == 58 {
        let t = copy_range(&line, 1, line.len());
        proof {
            assert(t@ =~= l.drop_first());
        }
        r.push(t);
        proof {
            assert(views_of(r@) =~= views_of(old(r)@) + line_tokens(l));
        }
    } else {
        r.push(line);
        proof {
            assert(views_of(r@) =~= views_of(old(r)@) + line_tokens(l));
        }
    }
}

/// Splits a request buffer into its command tokens, tolerating inline
/// simple forms and skipping structural header lines.
pub fn parse(source: &Vec<u8>) -> (r: Vec<Vec<u8>>)
    ensures
        views_of(r@) == tokens_of(source@),
{
    let n = source.len();
    let mut r: Vec<Vec<u8>> = Vec::new();
    let mut pos: usize = 0;
    proof {
        assert(source@.skip(0) =~= source@);
        assert(views_of(r@) + tokens_of(source@) =~= tokens_of(source@));
    }
    loop
        invariant
            n == source@.len(),
            pos <= source@.len(),
            tokens_of(source@) == views_of(r@) + tokens_of(source@.skip(pos as int)),
        decreases source@.len() - pos,
    {
        let ghost rest = source@.skip(pos as int);
        match find_crlf_from(source, pos) {
            Some(p) => {
                let line = copy_range(source, pos, p);
                proof {
                    assert(line@ =~= rest.take(p - pos));
                    assert(rest.skip(p - pos + 2) =~= source@.skip(p as int + 2));
                }
                push_line_tokens(&mut r, line);
                proof {
                    assert(views_of(r@) + tokens_of(source@.skip(p as int + 2)) =~= tokens_of(
                        source@,
                    ));
                }
                pos = p + 2;
            },
            None => {
                let line = copy_range(source, pos, source.len());
                proof {
                    assert(line@ =~= rest);
                }
                push_line_tokens(&mut r, line);
                proof {
                    assert(views_of(r@) =~= tokens_of(source@));
                }
                return r;
            },
        }
    }
}

/// Copies a byte vector.
pub fn copy_bytes(v: &Vec<u8>) -> (r: Vec<u8>)
    ensures
        r@ == v@,
{
    let r = copy_range(v, 0, v.len());
    proof {
        assert(v@.subrange(0, v@.len() as int) =~= v@);
    }
    r
}

/// Copies `b[from..to]` into a fresh vector.
pub fn copy_range(b: &Vec<u8>, from: usize, to: usize) -> (r: Vec<u8>)
    requires
        from <= to <= b@.len(),
    ensures
        r@ == b@.subrange(from as int, to as int),
{
    let mut r: Vec<u8> = Vec::new();
    let mut i: usize = from;
    while i < to
        invariant
            from <= i <= to <= b@.len(),
            r@ == b@.subrange(from as int, i as int),
        decreases to - i,
    {
        r.push(b[i]);
        proof {
            assert(r@ =~= b@.subrange(from as int, i as int + 1));
        }
        i = i + 1;
    }
    r
}

} // verus!

