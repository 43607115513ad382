use memprocreader::lock::{
    after_open_attempt, after_stop_attempt, classify_stop_failure, region_request, AfterOpen,
    LockError,
};
use memprocreader::reader::{check_exact, read_windows, READ_WINDOW_BYTES};
use memprocreader::{AddressRange, CoreError};

#[test]
fn zero_length_range_plans_no_read() {
    let r = read_windows(AddressRange { start: 0x7000, end: 0x7000 });
    assert!(r.is_empty());
}

#[test]
fn small_range_is_one_window() {
    let r = read_windows(AddressRange { start: 0x7000, end: 0x7200 });
    assert_eq!(r.len(), 1);
    assert_eq!(r[0].start, 0x7000);
    assert_eq!(r[0].end, 0x7200);
}

#[test]
fn large_range_chains_bounded_windows() {
    let start = 0x1000;
    let end = start + 2 * READ_WINDOW_BYTES + 17;
    let r = read_windows(AddressRange { start, end });
    assert_eq!(r.len(), 3);
    assert_eq!(r[0].start, start);
    assert_eq!(r[r.len() - 1].end, end);
    for w in &r {
        assert!(w.end - w.start <= READ_WINDOW_BYTES);
        assert!(w.start < w.end);
    }
    for i in 0..r.len() - 1 {
        assert_eq!(r[i].end, r[i + 1].start);
    }
}

#[test]
fn zero_length_read_yields_empty_sequence() {
    let out = check_exact(0, Vec::new()).expect("empty read is exact");
    assert!(out.is_empty());
}

#[test]
fn exact_read_is_accepted() {
    let data = vec![1u8, 2, 3, 4];
    let out = check_exact(4, data.clone()).expect("exact count");
    assert_eq!(out, data);
}

#[test]
fn short_read_is_reported_never_truncated() {
    let e = check_exact(10, vec![1u8, 2, 3]).expect_err("short read");
    match e {
        CoreError::IncompleteRead { expected, got } => {
            assert_eq!(expected, 10);
            assert_eq!(got, 3);
        },
        _ => panic!("wrong error variant"),
    }
}

#[test]
fn stop_failure_classification() {
    assert_eq!(classify_stop_failure(3), LockError::NoSuchProcess);
    assert_eq!(classify_stop_failure(1), LockError::PermissionDenied);
    assert_eq!(classify_stop_failure(22), LockError::NoSuchProcess);
}

#[test]
fn acquire_steps() {
    assert!(after_stop_attempt(None).is_ok());
    assert_eq!(after_stop_attempt(Some(1)), Err(LockError::PermissionDenied));
    assert_eq!(after_stop_attempt(Some(3)), Err(LockError::NoSuchProcess));
    assert_eq!(after_open_attempt(true), AfterOpen::Ready);
    assert_eq!(
        after_open_attempt(false),
        AfterOpen::ResumeThenFail(LockError::TargetUnavailable)
    );
}

#[test]
fn region_request_composes_parse_and_lookup() {
    let maps = b"0-1000 r--p 0 0:0 0 /bin/a\n559000-55a000 rw-p 0 0:0 0 [heap]\n";
    let region = region_request(maps, b"[heap]").expect("heap present");
    assert_eq!(region.address.start, 0x559000);
    assert_eq!(region.address.end, 0x55a000);

    let e = region_request(maps, b"[stack]").expect_err("no stack row");
    assert!(matches!(e, CoreError::RegionNotFound { .. }));

    let e = region_request(b"gibberish\n", b"[heap]").expect_err("malformed listing");
    match e {
        CoreError::Parse(p) => assert_eq!(p.line_number, 1),
        _ => panic!("wrong error variant"),
    }
}
