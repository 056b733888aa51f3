use constructive_opt::{calculate_forward_ri, parse_hex, AccessTrace};

fn record(address: usize, counter: usize) -> AccessTrace {
    AccessTrace {
        ref_id: 1,
        backward_ri: 0,
        forward_ri: None,
        address,
        counter,
    }
}

#[test]
fn forward_ri_filled_by_address() {
    let mut records = vec![record(16, 0), record(32, 1), record(16, 2), record(48, 3), record(16, 4)];
    calculate_forward_ri(&mut records);
    let fr: Vec<Option<usize>> = records.iter().map(|r| r.forward_ri).collect();
    assert_eq!(fr, vec![Some(2), None, Some(2), None, None]);
    let counters: Vec<usize> = records.iter().map(|r| r.counter).collect();
    assert_eq!(counters, vec![0, 1, 2, 3, 4]);
    assert_eq!(records[3].address, 48);
}

#[test]
fn forward_ri_of_no_records() {
    let mut records: Vec<AccessTrace> = Vec::new();
    calculate_forward_ri(&mut records);
    assert!(records.is_empty());
}

#[test]
fn hex_numbers_parse() {
    assert_eq!(parse_hex(b"ff"), Some(255));
    assert_eq!(parse_hex(b"7FfE10"), Some(0x7ffe10));
    assert_eq!(parse_hex(b"+10"), Some(16));
    assert_eq!(parse_hex(b"0"), Some(0));
    assert_eq!(parse_hex(b"ffffffffffffffff"), Some(usize::MAX));
}

#[test]
fn hex_numbers_rejected() {
    assert_eq!(parse_hex(b""), None);
    assert_eq!(parse_hex(b"+"), None);
    assert_eq!(parse_hex(b"0x10"), None);
    assert_eq!(parse_hex(b"12g"), None);
    assert_eq!(parse_hex(b"-1"), None);
    assert_eq!(parse_hex(b"10000000000000000"), None);
}

#[test]
fn hex_agrees_with_std() {
    for s in ["1a2b", "DEADbeef", "+0", "00000000000000000001", "fffffffffffffffff", "x"] {
        assert_eq!(parse_hex(s.as_bytes()), usize::from_str_radix(s, 16).ok());
    }
}
