use rtail::args::{parse_count, Count};
use rtail::select::{
    copy_range, next_copy_len, offset_tail, tail_bytes, tail_file, terminator_byte, BackwardScan,
    ForwardScan, CHUNK_SIZE,
};

fn emit(data: &[u8], offset: u64) -> Vec<u8> {
    let mut out = Vec::new();
    copy_range(data, offset, &mut out);
    out
}

#[test]
fn last_two_records_of_three() {
    let data = b"a\nb\nc\n";
    let off = tail_file(data, 2, false);
    assert_eq!(off, 2);
    assert_eq!(emit(data, off), b"b\nc\n".to_vec());
}

#[test]
fn from_second_record_onward() {
    let data = b"a\nb\nc\n";
    let off = offset_tail(data, 2, false);
    assert_eq!(off, 2);
    assert_eq!(emit(data, off), b"b\nc\n".to_vec());
}

#[test]
fn last_two_bytes() {
    let data = b"a\nb\nc\n";
    let off = tail_bytes(data.len() as u64, 2, false);
    assert_eq!(off, 4);
    assert_eq!(emit(data, off), b"c\n".to_vec());
}

#[test]
fn from_byte_two_onward() {
    let data = b"a\nb\nc\n";
    let off = tail_bytes(data.len() as u64, 2, true);
    assert_eq!(off, 2);
    assert_eq!(emit(data, off), b"b\nc\n".to_vec());
}

#[test]
fn trailing_partial_record_counts_as_one() {
    let data = b"a\nb";
    let off = tail_file(data, 1, false);
    assert_eq!(off, 2);
    assert_eq!(emit(data, off), b"b".to_vec());
    assert_eq!(tail_file(data, 2, false), 0);
}

#[test]
fn zero_records_yield_nothing() {
    let data = b"a\nb\nc\n";
    assert_eq!(tail_file(data, 0, false), 6);
    assert!(emit(data, 6).is_empty());
    assert_eq!(tail_file(b"", 0, false), 0);
}

#[test]
fn fewer_records_than_asked_yield_whole_file() {
    assert_eq!(tail_file(b"a\nb\n", 5, false), 0);
    assert_eq!(tail_file(b"a\nb\n", 2, false), 0);
    assert_eq!(tail_file(b"", 3, false), 0);
    assert_eq!(tail_file(b"abc", 1, false), 0);
}

#[test]
fn empty_records_count() {
    let data = b"x\n\n\n";
    assert_eq!(tail_file(data, 1, false), 3);
    assert_eq!(tail_file(data, 2, false), 2);
    assert_eq!(tail_file(data, 3, false), 0);
}

#[test]
fn from_record_at_most_one_is_whole_file() {
    assert_eq!(offset_tail(b"a\nb\n", 0, false), 0);
    assert_eq!(offset_tail(b"a\nb\n", 1, false), 0);
}

#[test]
fn from_record_past_the_end_is_empty() {
    let data = b"a\nb\n";
    assert_eq!(offset_tail(data, 3, false), 4);
    assert_eq!(offset_tail(data, 9, false), 4);
    assert!(emit(data, 4).is_empty());
    assert_eq!(offset_tail(b"a\nb", 3, false), 3);
}

#[test]
fn nul_terminated_records() {
    let data = b"a\0b\nc\0d";
    assert_eq!(terminator_byte(true), 0);
    assert_eq!(terminator_byte(false), b'\n');
    assert_eq!(tail_file(data, 1, true), 6);
    assert_eq!(tail_file(data, 2, true), 2);
    assert_eq!(offset_tail(data, 2, true), 2);
    assert_eq!(offset_tail(data, 3, true), 6);
    assert_eq!(tail_file(data, 1, false), 4);
}

#[test]
fn byte_counts_at_and_past_the_size() {
    assert_eq!(tail_bytes(6, 6, false), 0);
    assert_eq!(tail_bytes(6, 9, false), 0);
    assert_eq!(tail_bytes(6, 6, true), 6);
    assert_eq!(tail_bytes(6, 9, true), 6);
    assert_eq!(tail_bytes(6, 0, false), 6);
    assert_eq!(tail_bytes(6, 0, true), 0);
    assert_eq!(tail_bytes(0, 0, false), 0);
}

#[test]
fn repeated_selection_is_identical() {
    let data = b"one\ntwo\nthree\nfour";
    let first = emit(data, tail_file(data, 2, false));
    let second = emit(data, tail_file(data, 2, false));
    assert_eq!(first, second);
    assert_eq!(first, b"three\nfour".to_vec());
    assert_eq!(offset_tail(data, 3, false), offset_tail(data, 3, false));
}

fn big_source() -> Vec<u8> {
    // Records of 99 bytes plus a newline, spanning several chunks.
    let mut data = Vec::new();
    let line = [b'x'; 99];
    for _ in 0..30000 {
        data.extend_from_slice(&line);
        data.push(b'\n');
    }
    data
}

#[test]
fn backward_scan_across_chunks() {
    let data = big_source();
    let len = data.len() as u64;
    assert!(len > 2 * CHUNK_SIZE);
    assert_eq!(tail_file(&data, 1, false), len - 100);
    assert_eq!(tail_file(&data, 20000, false), len - 2_000_000);
    assert_eq!(tail_file(&data, 30000, false), 0);
}

#[test]
fn forward_scan_across_chunks() {
    let data = big_source();
    assert_eq!(offset_tail(&data, 2, false), 100);
    assert_eq!(offset_tail(&data, 20001, false), 2_000_000);
    assert_eq!(offset_tail(&data, 30001, false), data.len() as u64);
}

#[test]
fn backward_scan_fed_by_hand() {
    let data = b"aa\nbb\ncc\n";
    let mut scan = BackwardScan::new(data.len() as u64, 2, b'\n');
    assert!(!scan.is_done());
    let (off, len) = scan.next_chunk();
    assert_eq!((off, len), (0, 9));
    scan.feed(&data[off as usize..off as usize + len]);
    assert!(scan.is_done());
    assert_eq!(scan.result, Some(3));
    assert_eq!(BackwardScan::new(5, 0, b'\n').result, Some(5));
    assert_eq!(BackwardScan::new(0, 3, b'\n').result, Some(0));
}

#[test]
fn forward_scan_fed_by_hand() {
    let mut scan = ForwardScan::new(3, b'\n');
    scan.feed(b"ab\nc");
    assert!(!scan.is_done());
    scan.feed(b"d\nef");
    assert_eq!(scan.result, Some(6));
    let mut short = ForwardScan::new(4, b'\n');
    short.feed(b"a\nb\n");
    short.feed(b"");
    assert_eq!(short.result, Some(4));
    assert!(short.eof);
}

#[test]
fn copy_is_byte_exact_and_bounded() {
    let data: Vec<u8> = (0..=255u8).collect();
    assert_eq!(emit(&data, 250), vec![250, 251, 252, 253, 254, 255]);
    assert!(emit(&data, 256).is_empty());
    assert!(emit(&data, 1000).is_empty());
    let mut sink = vec![7u8];
    copy_range(b"xyz", 1, &mut sink);
    assert_eq!(sink, vec![7, b'y', b'z']);
    assert_eq!(next_copy_len(5), 5);
    assert_eq!(next_copy_len(CHUNK_SIZE * 3), CHUNK_SIZE as usize);
}

#[test]
fn counts_parse_with_and_without_plus() {
    assert_eq!(parse_count("10"), Some(Count { value: 10, from_start: false }));
    assert_eq!(parse_count("+3"), Some(Count { value: 3, from_start: true }));
    assert_eq!(parse_count("0"), Some(Count { value: 0, from_start: false }));
    assert_eq!(
        parse_count("18446744073709551615"),
        Some(Count { value: u64::MAX, from_start: false })
    );
}

#[test]
fn malformed_counts_are_rejected() {
    assert_eq!(parse_count(""), None);
    assert_eq!(parse_count("+"), None);
    assert_eq!(parse_count("-1"), None);
    assert_eq!(parse_count("1x"), None);
    assert_eq!(parse_count("++2"), None);
    assert_eq!(parse_count("18446744073709551616"), None);
}
