//! The typed record bound to a key: a byte string, a list, or a stream,
//! together with an optional absolute expiration instant in milliseconds.
use vstd::prelude::*;
use crate::bytes_of_str;
use crate::resp::views_of;
use crate::str_bytes;
use crate::stream::{StreamRecord, StreamV};

verus! {

/// The typed value of a record.
#[derive(Debug, PartialEq, Eq)]
pub enum RecordType {
    Str(Vec<u8>),
    List(Vec<Vec<u8>>),
    Stream(StreamRecord),
}

/// The abstract value of a record's typed part.
pub enum RecV {
    Str(Seq<u8>),
    List(Seq<Seq<u8>>),
    Stream(StreamV),
}

impl View for RecordType {
    type V = RecV;

    open spec fn view(&self) -> RecV {
        match self {
            RecordType::Str(s) => RecV::Str(s@),
            RecordType::List(l) => RecV::List(views_of(l@)),
            RecordType::Stream(st) => RecV::Stream(st@),
        }
    }
}

/// A record: its typed value and an optional absolute expiration instant,
/// in milliseconds of the same clock that reads pass in.
#[derive(Debug, PartialEq, Eq)]
pub struct RecordData {
    pub record: RecordType,
    pub expiration: Option<u64>,
}

/// The abstract value of a record.
pub struct RecordV {
    pub rec: RecV,
    pub exp: Option<u64>,
}

impl View for RecordData {
    type V = RecordV;

    open spec fn view(&self) -> RecordV {
        RecordV { rec: self.record@, exp: self.expiration }
    }
}

impl RecordV {
    /// A record is expired when its expiration instant is set and the
    /// observation time has reached it.
    pub open spec fn expired(self, now_ms: u64) -> bool {
        match self.exp {
            Some(e) => now_ms >= e,
            None => false,
        }
    }

    /// The streams a record holds are well formed.
    pub open spec fn wf(self) -> bool {
        match self.rec {
            RecV::Stream(st) => st.wf(),
            _ => true,
        }
    }
}

/// The reported name of a record's type.
pub open spec fn type_name_of(rec: RecV) -> Seq<char> {
    match rec {
        RecV::Str(_) => "string"@,
        RecV::List(_) => "list"@,
        RecV::Stream(_) => "stream"@,
    }
}

impl RecordData {
    /// Builds a record from its typed value and expiration.
    pub fn new(record: RecordType, expiration: Option<u64>) -> (r: RecordData)
        ensures
            r@.rec == record@,
            r@.exp == expiration,
    {
        RecordData { record, expiration }
    }

    /// True when the record has expired by `now_ms`.
    pub fn is_expired(&self, now_ms: u64) -> (r: bool)
        ensures
            r == self@.expired(now_ms),
    {
        match self.expiration {
            Some(e) => now_ms >= e,
            None => false,
        }
    }

    /// The name of the record's type.
    pub fn kind_name(&self) -> (r: &'static str)
        ensures
            r@ == type_name_of(self@.rec),
    {
        match self.record {
            RecordType::Str(_) => "string",
            RecordType::List(_) => "list",
            RecordType::Stream(_) => "stream",
        }
    }

    /// The name of the record's type, as reply bytes.
    pub fn type_bytes(&self) -> (r: Vec<u8>)
        ensures
            r@ == bytes_of_str(type_name_of(self@.rec)),
    {
        match self.record {
            RecordType::Str(_) => {
                proof {
                    reveal_strlit("string");
                }
                str_bytes("string")
            },
            RecordType::List(_) => {
                proof {
                    reveal_strlit("list");
                }
                str_bytes("list")
            },
            RecordType::Stream(_) => {
                proof {
                    reveal_strlit("stream");
                }
                str_bytes("stream")
            },
        }
    }
}

} // verus!
