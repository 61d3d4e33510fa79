//! The stream identifier algebra and the append-only stream record.
use respkv::stream::{StramValue, StreamEntryID, StreamEntryIDError, StreamRecord,
    StreamRecordError};

fn b(s: &str) -> Vec<u8> {
    s.as_bytes().to_vec()
}

fn id(ms: u128, seq: u64) -> StreamEntryID {
    StreamEntryID { ms, seq }
}

#[test]
fn parses_explicit_ids() {
    assert_eq!(StreamEntryID::new(&b("1-1"), &id(0, 0), 99), Ok(id(1, 1)));
    assert_eq!(StreamEntryID::new(&b("1526919030474-55"), &id(0, 0), 99), Ok(id(1526919030474, 55)));
}

#[test]
fn rejects_malformed_ids() {
    assert_eq!(StreamEntryID::new(&b("abc"), &id(0, 0), 9), Err(StreamEntryIDError::InvalidFormat));
    assert_eq!(StreamEntryID::new(&b("1-2-3"), &id(0, 0), 9), Err(StreamEntryIDError::InvalidFormat));
    assert_eq!(StreamEntryID::new(&b("1-x"), &id(0, 0), 9), Err(StreamEntryIDError::InvalidFormat));
    assert_eq!(StreamEntryID::new(&b("-5"), &id(0, 0), 9), Err(StreamEntryIDError::InvalidFormat));
    assert_eq!(StreamEntryID::new(&b("5-"), &id(0, 0), 9), Err(StreamEntryIDError::InvalidFormat));
}

#[test]
fn generates_sequence_numbers() {
    // Same millisecond: one past the last sequence; fresh millisecond: zero.
    assert_eq!(StreamEntryID::new(&b("5-*"), &id(5, 3), 9), Ok(id(5, 4)));
    assert_eq!(StreamEntryID::new(&b("6-*"), &id(5, 3), 9), Ok(id(6, 0)));
    assert_eq!(StreamEntryID::new(&b("*"), &id(9, 1), 9), Ok(id(9, 2)));
    assert_eq!(StreamEntryID::new(&b("*"), &id(5, 3), 9), Ok(id(9, 0)));
}

#[test]
fn formats_ids() {
    assert_eq!(id(1, 1).to_bytes(), b("1-1"));
    assert_eq!(id(1526919030474, 0).to_bytes(), b("1526919030474-0"));
}

#[test]
fn xadd_assigns_monotonically_increasing_ids() {
    let mut s = StreamRecord::new();
    let first = s.xadd(&b("1-1"), vec![(b("f"), b("v"))], 0).unwrap();
    assert_eq!(first, id(1, 1));
    let second = s.xadd(&b("2-0"), vec![(b("g"), b("w"))], 0).unwrap();
    assert_eq!(second, id(2, 0));
    assert!(first < second);
}

#[test]
fn xadd_rejects_zero_id() {
    let mut s = StreamRecord::new();
    assert_eq!(
        s.xadd(&b("0-0"), vec![(b("f"), b("v"))], 0),
        Err(StreamRecordError::MustBeGreater00)
    );
}

#[test]
fn xadd_rejects_non_increasing_id() {
    let mut s = StreamRecord::new();
    s.xadd(&b("1-1"), vec![(b("f"), b("v"))], 0).unwrap();
    assert_eq!(
        s.xadd(&b("1-1"), vec![(b("f"), b("v"))], 0),
        Err(StreamRecordError::EqualOrSmallerThanLastID)
    );
    assert_eq!(
        s.xadd(&b("0-5"), vec![(b("f"), b("v"))], 0),
        Err(StreamRecordError::EqualOrSmallerThanLastID)
    );
}

#[test]
fn xadd_error_texts_match_the_wire() {
    assert_eq!(
        StreamRecordError::MustBeGreater00.message(),
        b("The ID specified in XADD must be greater than 0-0")
    );
    assert_eq!(
        StreamRecordError::EqualOrSmallerThanLastID.message(),
        b("The ID specified in XADD is equal or smaller than the target stream top item")
    );
    assert_eq!(
        StreamRecordError::StreamEntryIDError(StreamEntryIDError::InvalidFormat).message(),
        b("Stream entry ID error: Invalid stream ID format")
    );
}

#[test]
fn xrange_resolves_sentinels_and_bounds() {
    let mut s = StreamRecord::new();
    s.xadd(&b("1-1"), vec![(b("a"), b("1"))], 0).unwrap();
    s.xadd(&b("2-2"), vec![(b("b"), b("2"))], 0).unwrap();
    s.xadd(&b("3-3"), vec![(b("c"), b("3"))], 0).unwrap();

    let StramValue(all) = s.xrange(&b("-"), &b("+")).unwrap();
    assert_eq!(all.len(), 3);
    assert_eq!(all[0].id, id(1, 1));
    assert_eq!(all[2].id, id(3, 3));

    let StramValue(mid) = s.xrange(&b("2-0"), &b("2-5")).unwrap();
    assert_eq!(mid.len(), 1);
    assert_eq!(mid[0].id, id(2, 2));
    assert_eq!(mid[0].fields, vec![(b("b"), b("2"))]);

    assert_eq!(
        s.xrange(&b("oops"), &b("+")),
        Err(StreamRecordError::StreamEntryIDError(StreamEntryIDError::InvalidFormat))
    );
}

#[test]
fn xrange_on_empty_stream_is_empty() {
    let s = StreamRecord::new();
    let StramValue(entries) = s.xrange(&b("-"), &b("+")).unwrap();
    assert!(entries.is_empty());
}

#[test]
fn xread_returns_entries_after_the_id() {
    let mut s = StreamRecord::new();
    s.xadd(&b("1-1"), vec![(b("a"), b("1"))], 0).unwrap();
    s.xadd(&b("2-2"), vec![(b("b"), b("2"))], 0).unwrap();
    let StramValue(after) = s.xread(&b("1-1")).unwrap();
    assert_eq!(after.len(), 1);
    assert_eq!(after[0].id, id(2, 2));
}
