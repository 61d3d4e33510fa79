//! An in-memory key-value engine speaking the RESP wire dialect: a frame
//! codec, a stream-entry identifier algebra, a typed record model with
//! millisecond time-to-live, a keyspace store with per-key wait queues,
//! and a command dispatcher.
use vstd::prelude::*;

pub mod assoc;
pub mod decode;
pub mod dispatch;
pub mod memory;
pub mod num;
pub mod record;
pub mod resp;
pub mod store;
pub mod stream;
pub mod wake;

verus! {

/// ASCII uppercase of one byte: lower-case letters are shifted, all other
/// bytes are unchanged.
pub open spec fn upper_byte(b: u8) -> u8 {
    if 97 <= b <= 122 {
        (b - 32) as u8
    } else {
        b
    }
}

/// ASCII uppercase of a byte string.
pub open spec fn upper_bytes(s: Seq<u8>) -> Seq<u8> {
    s.map(|_i: int, b: u8| upper_byte(b))
}

/// Uppercases a byte string in ASCII, as command dispatch does.
pub fn to_upper(s: &Vec<u8>) -> (r: Vec<u8>)
    ensures
        r@ == upper_bytes(s@),
{
    let mut r: Vec<u8> = Vec::new();
    let mut i: usize = 0;
    while i < s.len()
        invariant
            i <= s@.len(),
            r@ == upper_bytes(s@).take(i as int),
        decreases s@.len() - i,
    {
        let b = s[i];
        if 97 <= b && b <= 122 {
            r.push(b - 32);
        } else {
            r.push(b);
        }
        proof {
            assert(r@ =~= upper_bytes(s@).take(i as int + 1));
        }
        i = i + 1;
    }
    proof {
        assert(r@ =~= upper_bytes(s@));
    }
    r
}

/// The bytes of an ASCII text, character for character.
pub open spec fn bytes_of_str(s: Seq<char>) -> Seq<u8> {
    Seq::new(s.len(), |i: int| s[i] as u8)
}

/// Copies the bytes of an ASCII string.
pub fn str_bytes(s: &str) -> (r: Vec<u8>)
    requires
        s.is_ascii(),
    ensures
        r@ == bytes_of_str(s@),
{
    proof {
        vstd::string::is_ascii_spec_bytes(s);
    }
    let b = s.as_bytes();
    let r = vstd::slice::slice_to_vec(b);
    proof {
        assert(r@ =~= bytes_of_str(s@));
    }
    r
}

} // verus!
