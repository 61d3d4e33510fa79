//! Decoding of reply values from their wire bytes, and the round-trip
//! theorem: decoding an encoded value gives the value back.
use vstd::prelude::*;
use crate::num::{
    all_digits, dec_i64, dec_nat, digits_val, is_digit, lemma_digits_val_dec_nat, parse_i64,
    parse_i64_spec, parse_u128,
};
use crate::resp::{
    crlf, encode_items, encode_v, err_tag, find_crlf, find_crlf_from, lemma_find_crlf_at,
    copy_range, RespV, RespValue, deep_list, lemma_deep_list_push,
};

verus! {

/// Decodes the first reply value of the string, returning it together with
/// the bytes that follow it; nothing when no complete well-formed reply
/// starts the string.
pub open spec fn dec(b: Seq<u8>) -> Option<(RespV, Seq<u8>)>
    decreases b.len(), 0nat,
{
    if b.len() == 0 {
        None
    } else {
        let m = b.first();
        let t = b.drop_first();
        match find_crlf(t) {
            None => None,
            Some(j) => if 0 <= j && j + 2 <= t.len() {
                let line = t.take(j);
                let rest = t.skip(j + 2);
                if m == 43 {
                    Some((RespV::SimpleString(line), rest))
                } else if m == 45 {
                    if line.len() >= 4 && line.take(4) == err_tag() {
                        Some((RespV::Error(line.skip(4)), rest))
                    } else {
                        None
                    }
                } else if m == 58 {
                    match parse_i64_spec(line) {
                        Some(n) => Some((RespV::Integer(n), rest)),
                        None => None,
                    }
                } else if m == 36 {
                    if line == seq![45u8, 49u8] {
                        Some((RespV::BulkString(None), rest))
                    } else if line.len() > 0 && all_digits(line) {
                        let l = digits_val(line);
                        if rest.len() >= l + 2 && rest[l as int] == 13 && rest[l as int + 1]
                            == 10 {
                            Some(
                                (
                                    RespV::BulkString(Some(rest.take(l as int))),
                                    rest.skip(l as int + 2),
                                ),
                            )
                        } else {
                            None
                        }
                    } else {
                        None
                    }
                } else if m == 42 {
                    if line == seq![45u8, 49u8] {
                        Some((RespV::NullArray, rest))
                    } else if line.len() > 0 && all_digits(line) && rest.len() < b.len() {
                        match dec_items(rest, digits_val(line)) {
                            Some((vs, r2)) => Some((RespV::Array(vs), r2)),
                            None => None,
                        }
                    } else {
                        None
                    }
                } else {
                    None
                }
            } else {
                None
            },
        }
    }
}

/// Decodes `n` consecutive reply values.
pub open spec fn dec_items(b: Seq<u8>, n: nat) -> Option<(Seq<RespV>, Seq<u8>)>
    decreases b.len(), n + 1,
{
    if n == 0 {
        Some((Seq::empty(), b))
    } else {
        match dec(b) {
            None => None,
            Some((v, r)) => if r.len() <= b.len() {
                match dec_items(r, (n - 1) as nat) {
                    Some((vs, r2)) => Some((seq![v] + vs, r2)),
                    None => None,
                }
            } else {
                None
            },
        }
    }
}

/// Decoding of one whole buffer: a single reply value consuming every byte.
pub open spec fn decode_spec(b: Seq<u8>) -> Option<RespV> {
    match dec(b) {
        Some((v, r)) => if r.len() == 0 {
            Some(v)
        } else {
            None
        },
        None => None,
    }
}

/// The string holds no byte of the line terminator.
pub open spec fn no_line_break(s: Seq<u8>) -> bool {
    forall|i: int| 0 <= i < s.len() ==> #[trigger] s[i] != 13 && s[i] != 10
}

/// The value survives a round trip through the codec: its simple and error
/// texts hold no line break, and no null bulk string is written as the
/// distinguished `Null` (whose wire form coincides with an absent bulk
/// string).
pub open spec fn rt_ok(v: RespV) -> bool
    decreases v,
{
    match v {
        RespV::SimpleString(s) => no_line_break(s),
        RespV::Error(e) => no_line_break(e),
        RespV::Integer(_) => true,
        RespV::BulkString(_) => true,
        RespV::Null => false,
        RespV::NullArray => true,
        RespV::Array(items) => forall|i: int| 0 <= i < items.len() ==> rt_ok(#[trigger] items[i]),
    }
}

/// Decimal digits carry no line break and no sign byte.
proof fn lemma_digits_plain(s: Seq<u8>)
    requires
        all_digits(s),
    ensures
        no_line_break(s),
        forall|i: int| 0 <= i < s.len() ==> #[trigger] s[i] != 45 && s[i] != 43,
{
    assert forall|i: int| 0 <= i < s.len() implies #[trigger] s[i] != 13 && s[i] != 10 by {
        assert(is_digit(s[i]));
    }
    assert forall|i: int| 0 <= i < s.len() implies #[trigger] s[i] != 45 && s[i] != 43 by {
        assert(is_digit(s[i]));
    }
}

/// Parsing the canonical decimal form of an integer gives the integer back.
proof fn lemma_parse_dec_i64(n: i64)
    ensures
        parse_i64_spec(dec_i64(n)) == Some(n),
{
    if n >= 0 {
        let s = dec_nat(n as nat);
        lemma_digits_val_dec_nat(n as nat);
        lemma_digits_plain(s);
        assert(crate::num::strip_plus(s) =~= s);
    } else {
        let m = (-(n as int)) as nat;
        let s = dec_i64(n);
        lemma_digits_val_dec_nat(m);
        assert(s.drop_first() =~= dec_nat(m));
    }
}

/// Decoding an encoding, with anything appended, yields the value and the
/// appended bytes.
#[verifier::spinoff_prover]
#[verifier::rlimit(80)]
pub proof fn lemma_dec_encode(v: RespV, extra: Seq<u8>)
    requires
        rt_ok(v),
    ensures
        dec(encode_v(v) + extra) == Some((v, extra)),
    decreases v,
{
    let b = encode_v(v) + extra;
    let t = b.drop_first();
    match v {
        RespV::SimpleString(s) => {
            assert(t =~= s + crlf() + extra);
            lemma_find_crlf_at(t, s.len() as int);
            assert(t.take(s.len() as int) =~= s);
            assert(t.skip(s.len() as int + 2) =~= extra);
        },
        RespV::Error(e) => {
            let line = err_tag() + e;
            assert(t =~= line + crlf() + extra);
            assert(forall|k: int| 0 <= k < line.len() ==> #[trigger] line[k] != 13);
            lemma_find_crlf_at(t, line.len() as int);
            assert(t.take(line.len() as int) =~= line);
            assert(t.skip(line.len() as int + 2) =~= extra);
            assert(line.take(4) =~= err_tag());
            assert(line.skip(4) =~= e);
        },
        RespV::Integer(n) => {
            let line = dec_i64(n);
            if n >= 0 {
                lemma_digits_val_dec_nat(n as nat);
                lemma_digits_plain(line);
            } else {
                lemma_digits_val_dec_nat((-(n as int)) as nat);
                lemma_digits_plain(dec_nat((-(n as int)) as nat));
                assert(forall|k: int| 0 <= k < line.len() ==> #[trigger] line[k] != 13);
            }
            assert(t =~= line + crlf() + extra);
            lemma_find_crlf_at(t, line.len() as int);
            assert(t.take(line.len() as int) =~= line);
            assert(t.skip(line.len() as int + 2) =~= extra);
            lemma_parse_dec_i64(n);
        },
        RespV::BulkString(Some(s)) => {
            let line = dec_nat(s.len());
            lemma_digits_val_dec_nat(s.len());
            lemma_digits_plain(line);
            let rest = s + crlf() + extra;
            assert(t =~= line + crlf() + rest);
            lemma_find_crlf_at(t, line.len() as int);
            assert(t.take(line.len() as int) =~= line);
            assert(t.skip(line.len() as int + 2) =~= rest);
            assert(line != seq![45u8, 49u8]) by {
                if line == seq![45u8, 49u8] {
                    assert(is_digit(line[0]));
                }
            }
            assert(rest[s.len() as int] == 13 && rest[s.len() as int + 1] == 10);
            assert(rest.take(s.len() as int) =~= s);
            assert(rest.skip(s.len() as int + 2) =~= extra);
        },
        RespV::BulkString(None) => {
            assert(t =~= seq![45u8, 49u8] + crlf() + extra);
            lemma_find_crlf_at(t, 2);
            assert(t.take(2) =~= seq![45u8, 49u8]);
            assert(t.skip(4) =~= extra);
        },
        RespV::Null => {
            assert(false);
        },
        RespV::NullArray => {
            assert(t =~= seq![45u8, 49u8] + crlf() + extra);
            lemma_find_crlf_at(t, 2);
            assert(t.take(2) =~= seq![45u8, 49u8]);
            assert(t.skip(4) =~= extra);
        },
        RespV::Array(items) => {
            let line = dec_nat(items.len());
            lemma_digits_val_dec_nat(items.len());
            lemma_digits_plain(line);
            let rest = encode_items(items) + extra;
            assert(t =~= line + crlf() + rest);
            lemma_find_crlf_at(t, line.len() as int);
            assert(t.take(line.len() as int) =~= line);
            assert(t.skip(line.len() as int + 2) =~= rest);
            assert(line != seq![45u8, 49u8]) by {
                if line == seq![45u8, 49u8] {
                    assert(is_digit(line[0]));
                }
            }
            assert(rest.len() < b.len());
            assert(decreases_to!(v => items)) by {
                assert(v->Array_0 == items);
                assert(decreases_to!(v => v->Array_0));
            }
            lemma_dec_items(items, extra);
        },
    }
}

/// Decoding the concatenated encodings of a list of values, with anything
/// appended, yields the values and the appended bytes.
pub proof fn lemma_dec_items(items: Seq<RespV>, extra: Seq<u8>)
    requires
        forall|i: int| 0 <= i < items.len() ==> rt_ok(#[trigger] items[i]),
    ensures
        dec_items(encode_items(items) + extra, items.len()) == Some((items, extra)),
    decreases items,
{
    if items.len() == 0 {
        assert(encode_items(items) + extra =~= extra);
        assert(items =~= Seq::<RespV>::empty());
    } else {
        let first = items.first();
        let restitems = items.drop_first();
        let b = encode_items(items) + extra;
        assert(b =~= encode_v(first) + (encode_items(restitems) + extra));
        lemma_dec_encode(first, encode_items(restitems) + extra);
        lemma_dec_items(restitems, extra);
        assert(seq![first] + restitems =~= items);
    }
}

/// A decoded reply consumes at least its marker and line terminator.
proof fn lemma_dec_size(b: Seq<u8>)
    ensures
        match dec(b) {
            Some((v, r)) => r.len() + 3 <= b.len(),
            None => true,
        },
    decreases b.len(), 0nat,
{
    if b.len() > 0 {
        let t = b.drop_first();
        match find_crlf(t) {
            Some(j) => {
                if 0 <= j && j + 2 <= t.len() {
                    let rest = t.skip(j + 2);
                    if b.first() == 42 && !(t.take(j) == seq![45u8, 49u8]) && t.take(j).len() > 0
                        && all_digits(t.take(j)) && rest.len() < b.len() {
                        lemma_dec_items_size(rest, digits_val(t.take(j)));
                    }
                }
            },
            None => {},
        }
    }
}

/// Decoding `n` replies consumes at least three bytes each and yields
/// exactly `n` values.
proof fn lemma_dec_items_size(b: Seq<u8>, n: nat)
    ensures
        match dec_items(b, n) {
            Some((vs, r)) => r.len() + 3 * n <= b.len() && vs.len() == n,
            None => true,
        },
    decreases b.len(), n + 1,
{
    if n > 0 {
        lemma_dec_size(b);
        match dec(b) {
            Some((v, r)) => {
                if r.len() <= b.len() {
                    lemma_dec_items_size(r, (n - 1) as nat);
                }
            },
            None => {},
        }
    }
}

/// Decodes the reply value that starts at `pos`, following `dec`.
#[verifier::spinoff_prover]
#[verifier::rlimit(100)]
fn decode_at(b: &Vec<u8>, pos: usize) -> (r: Option<(RespValue, usize)>)
    requires
        pos <= b@.len(),
    ensures
        match r {
            Some(p) => {
                &&& pos <= p.1 <= b@.len()
                &&& dec(b@.skip(pos as int)) == Some((p.0.deep(), b@.skip(p.1 as int)))
            },
            None => dec(b@.skip(pos as int)) is None,
        },
    decreases b@.len() - pos,
{
    let ghost s = b@.skip(pos as int);
    let n = b.len();
    if pos == n {
        return None;
    }
    let m = b[pos];
    let ghost t = s.drop_first();
    proof {
        assert(t =~= b@.skip(pos as int + 1));
        assert(s.first() == m);
    }
    match find_crlf_from(b, pos + 1) {
        None => {
            return None;
        },
        Some(p) => {
            let ghost j = p - pos - 1;
            let ghost line = t.take(j);
            let ghost rest = t.skip(j + 2);
            proof {
                assert(find_crlf(t) == Some(j));
                assert(line =~= b@.subrange(pos as int + 1, p as int));
                assert(rest =~= b@.skip(p as int + 2));
            }
            if m == 43 {
                let text = copy_range(b, pos + 1, p);
                Some((RespValue::SimpleString(text), p + 2))
            } else if m == 45 {
                if p - (pos + 1) >= 4 && b[pos + 1] == 69 && b[pos + 2] == 82 && b[pos + 3] == 82
                    && b[pos + 4] == 32 {
                    let msg = copy_range(b, pos + 5, p);
                    proof {
                        assert(line.take(4) =~= err_tag());
                        assert(line.skip(4) =~= b@.subrange(pos as int + 5, p as int));
                    }
                    Some((RespValue::Error(msg), p + 2))
                } else {
                    proof {
                        if line.len() >= 4 && line.take(4) == err_tag() {
                            assert(line[0] == 69 && line[1] == 82 && line[2] == 82 && line[3]
                                == 32) by {
                                assert(line.take(4)[0] == line[0]);
                                assert(line.take(4)[1] == line[1]);
                                assert(line.take(4)[2] == line[2]);
                                assert(line.take(4)[3] == line[3]);
                            }
                            assert(false);
                        }
                    }
                    None
                }
            } else if m == 58 {
                let text = copy_range(b, pos + 1, p);
                match parse_i64(&text) {
                    Some(v) => Some((RespValue::Integer(v), p + 2)),
                    None => None,
                }
            } else if m == 36 {
                if p - (pos + 1) == 2 && b[pos + 1] == 45 && b[pos + 2] == 49 {
                    proof {
                        assert(line =~= seq![45u8, 49u8]);
                    }
                    Some((RespValue::BulkString(None), p + 2))
                } else {
                    let ghost not_null: bool = true;
                    proof {
                        if line == seq![45u8, 49u8] {
                            assert(line[0] == 45 && line[1] == 49 && line.len() == 2);
                            assert(false);
                        }
                    }
                    let text = copy_range(b, pos + 1, p);
                    if text.len() == 0 || text[0] == 43 {
                        return None;
                    }
                    proof {
                        assert(crate::num::strip_plus(line) =~= line);
                    }
                    match parse_u128(&text) {
                        None => {
                            proof {
                                if line.len() > 0 && all_digits(line) {
                                    assert(digits_val(line) > u128::MAX as nat);
                                    assert(rest.len() + 2 < digits_val(line));
                                }
                            }
                            None
                        },
                        Some(l) => {
                            let rem = n - (p + 2);
                            if rem < 2 || l > (rem - 2) as u128 {
                                return None;
                            }
                            let lu = l as usize;
                            if b[p + 2 + lu] == 13 && b[p + 3 + lu] == 10 {
                                let content = copy_range(b, p + 2, p + 2 + lu);
                                proof {
                                    assert(rest[l as int] == 13 && rest[l as int + 1] == 10);
                                    assert(rest.take(l as int) =~= b@.subrange(
                                        p as int + 2,
                                        p as int + 2 + l as int,
                                    ));
                                    assert(rest.skip(l as int + 2) =~= b@.skip(
                                        p as int + 4 + l as int,
                                    ));
                                }
                                Some((RespValue::BulkString(Some(content)), p + 4 + lu))
                            } else {
                                None
                            }
                        },
                    }
                }
            } else if m == 42 {
                if p - (pos + 1) == 2 && b[pos + 1] == 45 && b[pos + 2] == 49 {
                    proof {
                        assert(line =~= seq![45u8, 49u8]);
                    }
                    Some((RespValue::NullArray, p + 2))
                } else {
                    proof {
                        if line == seq![45u8, 49u8] {
                            assert(line[0] == 45 && line[1] == 49 && line.len() == 2);
                            assert(false);
                        }
                    }
                    let text = copy_range(b, pos + 1, p);
                    if text.len() == 0 || text[0] == 43 {
                        return None;
                    }
                    proof {
                        assert(crate::num::strip_plus(line) =~= line);
                        assert(rest.len() < s.len());
                    }
                    match parse_u128(&text) {
                        None => {
                            proof {
                                if line.len() > 0 && all_digits(line) {
                                    assert(digits_val(line) > u128::MAX as nat);
                                    lemma_dec_items_size(rest, digits_val(line));
                                }
                            }
                            None
                        },
                        Some(count) => {
                            if count > (n - (p + 2)) as u128 {
                                proof {
                                    lemma_dec_items_size(rest, count as nat);
                                }
                                return None;
                            }
                            let mut acc: Vec<RespValue> = Vec::new();
                            let mut cur: usize = p + 2;
                            let mut k: u128 = 0;
                            proof {
                                assert(deep_list(acc@) =~= Seq::<RespV>::empty());
                                match dec_items(rest, count as nat) {
                                    Some(q) => {
                                        assert(deep_list(acc@) + q.0 =~= q.0);
                                    },
                                    None => {},
                                }
                            }
                            while k < count
                                invariant
                                    n == b@.len(),
                                    pos < p + 2 <= cur <= n,
                                    k <= count,
                                    s == b@.skip(pos as int),
                                    rest == b@.skip(p as int + 2),
                                    match dec_items(rest, count as nat) {
                                        Some(q2) => dec(s) == Some((RespV::Array(q2.0), q2.1)),
                                        None => dec(s) is None,
                                    },
                                    match dec_items(b@.skip(cur as int), (count - k) as nat) {
                                        Some(q) => dec_items(rest, count as nat) == Some(
                                            (deep_list(acc@) + q.0, q.1),
                                        ),
                                        None => dec_items(rest, count as nat) is None,
                                    },
                                decreases count - k,
                            {
                                let ghost pre = b@.skip(cur as int);
                                match decode_at(b, cur) {
                                    None => {
                                        proof {
                                            assert(dec_items(pre, (count - k) as nat) is None);
                                        }
                                        return None;
                                    },
                                    Some(item) => {
                                        let (v, end) = item;
                                        proof {
                                            let vs_rest = b@.skip(end as int);
                                            assert(vs_rest.len() <= pre.len());
                                            lemma_deep_list_push(acc@, v);
                                            match dec_items(vs_rest, (count - k - 1) as nat) {
                                                Some(q) => {
                                                    assert(dec_items(
                                                        pre,
                                                        (count - k) as nat,
                                                    ) == Some((seq![v.deep()] + q.0, q.1)));
                                                    assert(deep_list(acc@.push(v)) + q.0 =~= deep_list(
                                                        acc@,
                                                    ) + (seq![v.deep()] + q.0));
                                                },
                                                None => {},
                                            }
                                        }
                                        acc.push(v);
                                        cur = end;
                                        k = k + 1;
                                    },
                                }
                            }
                            proof {
                                assert(dec_items(b@.skip(cur as int), 0) == Some(
                                    (Seq::<RespV>::empty(), b@.skip(cur as int)),
                                ));
                                assert(deep_list(acc@) + Seq::<RespV>::empty() =~= deep_list(
                                    acc@,
                                ));
                            }
                            Some((RespValue::Array(acc), cur))
                        },
                    }
                }
            } else {
                None
            }
        },
    }
}

/// Decodes one complete reply value that spans the whole buffer.
pub fn decode(bytes: &Vec<u8>) -> (r: Option<RespValue>)
    ensures
        match r {
            Some(v) => decode_spec(bytes@) == Some(v.deep()),
            None => decode_spec(bytes@) is None,
        },
{
    proof {
        assert(bytes@.skip(0) =~= bytes@);
    }
    match decode_at(bytes, 0) {
        Some(p) => {
            let (v, end) = p;
            if end == bytes.len() {
                proof {
                    assert(bytes@.skip(end as int).len() == 0);
                }
                Some(v)
            } else {
                None
            }
        },
        None => None,
    }
}

/// Round trip of the codec: decoding the encoding of any round-trip-safe
/// reply value yields the value itself, structurally.
pub proof fn lemma_decode_encode(v: RespV)
    requires
        rt_ok(v),
    ensures
        decode_spec(encode_v(v)) == Some(v),
{
    assert(encode_v(v) + Seq::<u8>::empty() =~= encode_v(v));
    lemma_dec_encode(v, Seq::empty());
}

} // verus!
