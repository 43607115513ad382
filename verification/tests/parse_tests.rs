use memprocreader::numeral::{parse_dec_u64, parse_hex_u64, to_hex_bytes};
use memprocreader::table::{parse, parse_line, ParseReason};

#[test]
fn parse_example_line() {
    let line = b"7f1234560000-7f1234581000 r--p 00000000 08:01 1234 /lib/libc.so";
    let table = parse(line).expect("line is well-formed");
    assert_eq!(table.len(), 1);
    let region = &table[0];
    assert_eq!(region.address.start, 0x7f1234560000);
    assert_eq!(region.address.end, 0x7f1234581000);
    assert!(region.permissions.read);
    assert!(!region.permissions.write);
    assert!(!region.permissions.execute);
    assert!(!region.permissions.shared);
    assert!(region.permissions.private);
    assert_eq!(region.offset, 0);
    assert_eq!(region.device.major, 8);
    assert_eq!(region.device.minor, 1);
    assert_eq!(region.inode, 1234);
    assert_eq!(region.pathname.as_deref(), Some(&b"/lib/libc.so"[..]));
}

#[test]
fn parse_line_anonymous_mapping() {
    let r = parse_line(b"00400000-00452000 rw-p 00000000 00:00 0").expect("valid line");
    assert_eq!(r.pathname, None);
    assert_eq!(r.address.start, 0x400000);
    assert_eq!(r.device.major, 0);
    assert_eq!(r.inode, 0);
}

#[test]
fn parse_line_bracketed_pseudo_name() {
    let r = parse_line(b"7ffc0000-7ffd0000 rw-p 00000000 00:00 0     [stack]")
        .expect("valid line");
    assert_eq!(r.pathname.as_deref(), Some(&b"[stack]"[..]));
}

#[test]
fn parse_line_shared_flag() {
    let r = parse_line(b"0-1000 rwxs 0 0:0 5 /dev/shm/x").expect("valid line");
    assert!(r.permissions.read && r.permissions.write && r.permissions.execute);
    assert!(r.permissions.shared && !r.permissions.private);
}

#[test]
fn parse_line_fourth_char_neither_shared_nor_private() {
    let r = parse_line(b"0-1000 r--- 0 0:0 0").expect("valid line");
    assert!(!r.permissions.shared && !r.permissions.private);
}

#[test]
fn inverted_range_rejected_not_normalized() {
    let e = parse(b"7f1234581000-7f1234560000 r--p 00000000 08:01 1234 /lib/libc.so")
        .expect_err("inverted range must be rejected");
    assert_eq!(e.reason, ParseReason::InvertedRange);
    assert_eq!(e.line_number, 1);
}

#[test]
fn equal_start_and_end_accepted() {
    let r = parse_line(b"1000-1000 ---p 0 0:0 0").expect("empty interval is not inverted");
    assert_eq!(r.address.start, r.address.end);
}

#[test]
fn malformed_hex_rejected() {
    let e = parse(b"zz-10 r--p 0 0:0 0").expect_err("bad hex");
    assert_eq!(e.reason, ParseReason::BadAddress);
}

#[test]
fn missing_fields_rejected() {
    let e = parse(b"1000-2000 r--p 0 0:0").expect_err("inode missing");
    assert_eq!(e.reason, ParseReason::MissingField);
    let e = parse(b"").is_ok();
    assert!(e, "empty listing is an empty table");
    let e = parse(b"\n").expect_err("an empty line is not a row");
    assert_eq!(e.reason, ParseReason::MissingField);
}

#[test]
fn bad_permissions_rejected() {
    let e = parse(b"0-1000 r-p 0 0:0 0").expect_err("three permission chars");
    assert_eq!(e.reason, ParseReason::BadPermissions);
    let e = parse(b"0-1000 rwxps 0 0:0 0").expect_err("five permission chars");
    assert_eq!(e.reason, ParseReason::BadPermissions);
}

#[test]
fn bad_offset_rejected() {
    let e = parse(b"0-1000 r--p 0x10 0:0 0").expect_err("offset is not bare hex");
    assert_eq!(e.reason, ParseReason::BadOffset);
}

#[test]
fn bad_device_rejected() {
    let e = parse(b"0-1000 r--p 0 0800 0").expect_err("no colon");
    assert_eq!(e.reason, ParseReason::BadDevice);
    let e = parse(b"0-1000 r--p 0 08:zz 0").expect_err("bad minor");
    assert_eq!(e.reason, ParseReason::BadDevice);
}

#[test]
fn bad_inode_rejected() {
    let e = parse(b"0-1000 r--p 0 0:0 12a").expect_err("inode is decimal");
    assert_eq!(e.reason, ParseReason::BadInode);
}

#[test]
fn first_bad_line_aborts_whole_parse() {
    let text = b"0-1000 r--p 0 0:0 0\nbroken line\n1000-2000 r--p 0 0:0 0\n";
    let e = parse(text).expect_err("strict parse aborts");
    assert_eq!(e.line_number, 2);
    assert_eq!(e.raw_line, b"broken line".to_vec());
}

#[test]
fn multi_line_listing_keeps_order() {
    let text = b"0-1000 r--p 0 0:0 0 first\n1000-2000 rw-p 0 0:0 0 second\n";
    let table = parse(text).expect("both lines valid");
    assert_eq!(table.len(), 2);
    assert_eq!(table[0].pathname.as_deref(), Some(&b"first"[..]));
    assert_eq!(table[1].pathname.as_deref(), Some(&b"second"[..]));
    // With and without the final newline the same table comes out.
    let table2 = parse(b"0-1000 r--p 0 0:0 0 first\n1000-2000 rw-p 0 0:0 0 second").unwrap();
    assert_eq!(table2.len(), 2);
}

#[test]
fn address_serialization_round_trip() {
    let line = b"7f1234560000-7f1234581000 r--p 00000000 08:01 1234 /lib/libc.so";
    let table = parse(line).unwrap();
    assert_eq!(to_hex_bytes(table[0].address.start), b"7f1234560000".to_vec());
    assert_eq!(to_hex_bytes(table[0].address.end), b"7f1234581000".to_vec());
}

#[test]
fn address_serialization_round_trip_is_case_insensitive() {
    let table = parse(b"7F12AB-7F12FF r--p 0 0:0 0").unwrap();
    assert_eq!(to_hex_bytes(table[0].address.start), b"7f12ab".to_vec());
    assert_eq!(to_hex_bytes(table[0].address.end), b"7f12ff".to_vec());
}

#[test]
fn hex_parser_bounds() {
    assert_eq!(parse_hex_u64(b"0"), Some(0));
    assert_eq!(parse_hex_u64(b"ffffffffffffffff"), Some(u64::MAX));
    assert_eq!(parse_hex_u64(b"10000000000000000"), None);
    assert_eq!(parse_hex_u64(b""), None);
    assert_eq!(parse_hex_u64(b"12g4"), None);
    assert_eq!(parse_hex_u64(b"DeadBEEF"), Some(0xdeadbeef));
}

#[test]
fn dec_parser_bounds() {
    assert_eq!(parse_dec_u64(b"1234"), Some(1234));
    assert_eq!(parse_dec_u64(b"18446744073709551615"), Some(u64::MAX));
    assert_eq!(parse_dec_u64(b"18446744073709551616"), None);
    assert_eq!(parse_dec_u64(b""), None);
}

#[test]
fn hex_serializer_canonical_forms() {
    assert_eq!(to_hex_bytes(0), b"0".to_vec());
    assert_eq!(to_hex_bytes(16), b"10".to_vec());
    assert_eq!(to_hex_bytes(u64::MAX), b"ffffffffffffffff".to_vec());
}
