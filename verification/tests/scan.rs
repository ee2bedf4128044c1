use async_buf_reader_utils::read_until_index_found::{
    cycle_given_index, read_until_index_found, scan_cycle, BoundaryPredicate, ScanOutcome,
};
use async_buf_reader_utils::source::ChunkedSource;

/// Fires once the n-th comma has been seen, counting across windows, and
/// resets its count after a match — the shape of predicate the scan is for.
struct NthCommaPredicate {
    comma_count: usize,
    target: usize,
}

impl BoundaryPredicate for NthCommaPredicate {
    fn found_index(&mut self, text: &str) -> Option<usize> {
        for (i, b) in text.bytes().enumerate() {
            if b == b',' {
                self.comma_count += 1;
            }
            if self.comma_count == self.target {
                self.comma_count = 0;
                return Some(i);
            }
        }
        None
    }
}

/// Replays a fixed script of answers, one per window.
struct ScriptedPredicate {
    answers: Vec<Option<usize>>,
    next: usize,
}

impl BoundaryPredicate for ScriptedPredicate {
    fn found_index(&mut self, _text: &str) -> Option<usize> {
        let a = self.answers[self.next];
        self.next += 1;
        a
    }
}

/// Never places a boundary.
struct NeverPredicate;

impl BoundaryPredicate for NeverPredicate {
    fn found_index(&mut self, _text: &str) -> Option<usize> {
        None
    }
}

/// Remembers every window it was shown, and never places a boundary.
struct RecordingPredicate {
    seen: Vec<String>,
}

impl BoundaryPredicate for RecordingPredicate {
    fn found_index(&mut self, text: &str) -> Option<usize> {
        self.seen.push(text.to_string());
        None
    }
}

#[test]
fn single_window_match_then_remainder() {
    let mut source = ChunkedSource::new(vec![b"a,b,c,d,e".to_vec()]);
    let mut predicate = NthCommaPredicate { comma_count: 0, target: 4 };
    let mut buf: Vec<u8> = Vec::new();
    let mut read: usize = 0;

    let r = read_until_index_found(&mut source, &mut predicate, &mut buf, &mut read);
    assert_eq!(r, ScanOutcome::Found(8));
    assert_eq!(buf, b"a,b,c,d,".to_vec());
    assert_eq!(read, 0);

    // The remainder "e" was left unconsumed for the next call.
    buf.clear();
    let r2 = read_until_index_found(&mut source, &mut predicate, &mut buf, &mut read);
    assert_eq!(r2, ScanOutcome::NotFound);
    assert_eq!(buf, b"e".to_vec());
}

#[test]
fn match_spanning_two_windows() {
    let mut source = ChunkedSource::new(vec![b"ab".to_vec(), b"cd,".to_vec()]);
    let mut predicate = ScriptedPredicate { answers: vec![None, Some(2)], next: 0 };
    let mut buf: Vec<u8> = Vec::new();
    let mut read: usize = 0;

    let r = read_until_index_found(&mut source, &mut predicate, &mut buf, &mut read);
    assert_eq!(r, ScanOutcome::Found(5));
    assert_eq!(buf, b"abcd,".to_vec());
}

#[test]
fn eof_with_no_match() {
    let mut source = ChunkedSource::new(vec![b"xyz".to_vec()]);
    let mut predicate = NeverPredicate;
    let mut buf: Vec<u8> = Vec::new();
    let mut read: usize = 0;

    let r = read_until_index_found(&mut source, &mut predicate, &mut buf, &mut read);
    assert_eq!(r, ScanOutcome::NotFound);
    assert_eq!(buf, b"xyz".to_vec());
    // No match, so the counter is left as accumulated.
    assert_eq!(read, 3);
}

#[test]
fn decode_failure_keeps_prior_bytes() {
    let mut source = ChunkedSource::new(vec![b"ab".to_vec(), vec![0xff, 0xfe]]);
    let mut predicate = NeverPredicate;
    let mut buf: Vec<u8> = Vec::new();
    let mut read: usize = 0;

    let r = read_until_index_found(&mut source, &mut predicate, &mut buf, &mut read);
    assert_eq!(r, ScanOutcome::DecodeFailed);
    // Only the bytes of prior, valid cycles were appended and consumed.
    assert_eq!(buf, b"ab".to_vec());
    assert_eq!(read, 2);

    // The offending window was not consumed, so the error repeats.
    let r2 = read_until_index_found(&mut source, &mut predicate, &mut buf, &mut read);
    assert_eq!(r2, ScanOutcome::DecodeFailed);
    assert_eq!(buf, b"ab".to_vec());
}

#[test]
fn offset_past_window_end_is_clamped() {
    let view: [u8; 3] = [b'a', b'b', b'c'];
    let mut buf: Vec<u8> = Vec::new();
    let mut read: usize = 0;
    let (done, used) = cycle_given_index(&view, Some(10), &mut buf, &mut read);
    assert!(done);
    assert_eq!(used, 3);
    assert_eq!(buf, b"abc".to_vec());
    assert_eq!(read, 3);

    let mut source = ChunkedSource::new(vec![b"abc".to_vec()]);
    let mut predicate = ScriptedPredicate { answers: vec![Some(99)], next: 0 };
    let mut buf2: Vec<u8> = Vec::new();
    let mut read2: usize = 0;
    let r = read_until_index_found(&mut source, &mut predicate, &mut buf2, &mut read2);
    assert_eq!(r, ScanOutcome::Found(3));
    assert_eq!(buf2, b"abc".to_vec());
}

#[test]
fn offset_zero_consumes_one_byte() {
    let view: [u8; 3] = [b'a', b'b', b'c'];
    let mut buf: Vec<u8> = Vec::new();
    let mut read: usize = 0;
    let (done, used) = cycle_given_index(&view, Some(0), &mut buf, &mut read);
    assert!(done);
    assert_eq!(used, 1);
    assert_eq!(buf, b"a".to_vec());
}

#[test]
fn boundary_on_empty_window_consumes_nothing() {
    let view: [u8; 0] = [];
    let mut buf: Vec<u8> = Vec::new();
    let mut read: usize = 7;
    let (done, used) = cycle_given_index(&view, Some(5), &mut buf, &mut read);
    assert!(done);
    assert_eq!(used, 0);
    assert_eq!(read, 7);
    assert!(buf.is_empty());

    // At end of stream even a firing predicate yields NotFound in one cycle.
    let mut source = ChunkedSource::new(Vec::new());
    let mut predicate = ScriptedPredicate { answers: vec![Some(0)], next: 0 };
    let mut buf2: Vec<u8> = Vec::new();
    let mut read2: usize = 0;
    let r = read_until_index_found(&mut source, &mut predicate, &mut buf2, &mut read2);
    assert_eq!(r, ScanOutcome::NotFound);
    assert!(buf2.is_empty());
}

#[test]
fn counter_resets_after_each_found() {
    let mut source = ChunkedSource::new(vec![b"a,b,".to_vec()]);
    let mut predicate = NthCommaPredicate { comma_count: 0, target: 1 };
    let mut buf: Vec<u8> = Vec::new();
    let mut read: usize = 0;

    let r1 = read_until_index_found(&mut source, &mut predicate, &mut buf, &mut read);
    assert_eq!(r1, ScanOutcome::Found(2));
    assert_eq!(read, 0);

    let r2 = read_until_index_found(&mut source, &mut predicate, &mut buf, &mut read);
    assert_eq!(r2, ScanOutcome::Found(2));
    assert_eq!(read, 0);
    assert_eq!(buf, b"a,b,".to_vec());
}

#[test]
fn accumulator_existing_prefix_is_preserved() {
    let mut source = ChunkedSource::new(vec![b"tail".to_vec()]);
    let mut predicate = NeverPredicate;
    let mut buf: Vec<u8> = b"keep".to_vec();
    let mut read: usize = 0;

    let r = read_until_index_found(&mut source, &mut predicate, &mut buf, &mut read);
    assert_eq!(r, ScanOutcome::NotFound);
    assert_eq!(buf, b"keeptail".to_vec());
}

#[test]
fn conservation_over_windowed_stream() {
    // The same 5-byte stream, windowed two ways; every byte is consumed
    // exactly once, whatever the windowing.
    let mut source = ChunkedSource::new(vec![b"ab".to_vec(), b"cd".to_vec(), b"e".to_vec()]);
    let mut predicate = NeverPredicate;
    let mut buf: Vec<u8> = Vec::new();
    let mut read: usize = 0;
    let r = read_until_index_found(&mut source, &mut predicate, &mut buf, &mut read);
    assert_eq!(r, ScanOutcome::NotFound);
    assert_eq!(read, 5);
    assert_eq!(buf, b"abcde".to_vec());

    let mut source2 = ChunkedSource::new(vec![b"abcde".to_vec()]);
    let mut predicate2 = NthCommaPredicate { comma_count: 0, target: 1 };
    let mut buf2: Vec<u8> = Vec::new();
    let mut read2: usize = 0;
    let r1 = read_until_index_found(&mut source2, &mut predicate2, &mut buf2, &mut read2);
    assert_eq!(r1, ScanOutcome::NotFound);
    assert_eq!(read2, 5);
}

#[test]
fn fill_and_consume_partition_the_stream() {
    let mut source = ChunkedSource::new(vec![b"ab".to_vec(), b"c".to_vec()]);
    let v1 = source.fill();
    assert_eq!(v1, b"ab".to_vec());
    source.consume(1);
    // A fill after a partial consume serves the rest of the same window.
    let v2 = source.fill();
    assert_eq!(v2, b"b".to_vec());
    source.consume(1);
    let v3 = source.fill();
    assert_eq!(v3, b"c".to_vec());
    source.consume(1);
    // An empty view signals end of stream, permanently.
    let v4 = source.fill();
    assert!(v4.is_empty());
    let v5 = source.fill();
    assert!(v5.is_empty());
}

#[test]
fn scan_cycle_consumes_whole_window_without_boundary() {
    let view: [u8; 2] = [b'x', b'y'];
    let mut predicate = NeverPredicate;
    let mut buf: Vec<u8> = Vec::new();
    let mut read: usize = 0;
    let (outcome, used) = scan_cycle(&view, &mut predicate, &mut buf, &mut read);
    assert_eq!(outcome, ScanOutcome::More);
    assert_eq!(used, 2);
    assert_eq!(buf, b"xy".to_vec());
    assert_eq!(read, 2);
}

#[test]
fn scan_cycle_rejects_invalid_text() {
    let view: [u8; 2] = [0xc3, 0x28];
    let mut predicate = NeverPredicate;
    let mut buf: Vec<u8> = b"old".to_vec();
    let mut read: usize = 4;
    let (outcome, used) = scan_cycle(&view, &mut predicate, &mut buf, &mut read);
    assert_eq!(outcome, ScanOutcome::DecodeFailed);
    assert_eq!(used, 0);
    assert_eq!(buf, b"old".to_vec());
    assert_eq!(read, 4);
}

#[test]
fn predicate_sees_each_window_as_text() {
    let mut source = ChunkedSource::new(vec![b"a,b".to_vec(), "héllo".as_bytes().to_vec()]);
    let mut predicate = RecordingPredicate { seen: Vec::new() };
    let mut buf: Vec<u8> = Vec::new();
    let mut read: usize = 0;
    let r = read_until_index_found(&mut source, &mut predicate, &mut buf, &mut read);
    assert_eq!(r, ScanOutcome::NotFound);
    // One call per window, current window only, then one for the empty view.
    assert_eq!(predicate.seen, vec!["a,b".to_string(), "héllo".to_string(), String::new()]);
    assert_eq!(buf, "a,bhéllo".as_bytes().to_vec());
}
