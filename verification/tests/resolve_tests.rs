use memprocreader::resolve::find_by_name;
use memprocreader::table::parse;
use memprocreader::CoreError;

#[test]
fn heap_found_in_singleton_table() {
    let table = parse(b"0-1000 r--p 0 0:0 0 /bin/a\n1000-2000 rw-p 0 0:0 0 [heap]\n").unwrap();
    let region = find_by_name(&table, b"[heap]").expect("heap row exists");
    assert_eq!(region.address.start, 0x1000);
    assert_eq!(region.address.end, 0x2000);
    assert_eq!(region.pathname.as_deref(), Some(&b"[heap]"[..]));
}

#[test]
fn missing_name_reports_region_not_found() {
    let table = parse(b"0-1000 r--p 0 0:0 0 /bin/a\n").unwrap();
    let e = find_by_name(&table, b"[heap]").expect_err("no heap row");
    match e {
        CoreError::RegionNotFound { name } => assert_eq!(name, b"[heap]".to_vec()),
        _ => panic!("wrong error variant"),
    }
}

#[test]
fn duplicate_names_resolve_to_first_row() {
    let text = b"0-1000 r--p 0 0:0 0 [heap]\n1000-2000 rw-p 0 0:0 0 [heap]\n";
    let table = parse(text).unwrap();
    let first = find_by_name(&table, b"[heap]").unwrap();
    assert_eq!(first.address.start, 0);
    assert_eq!(first.address.end, 0x1000);
    // Repeated lookups on the same table return the same row.
    let again = find_by_name(&table, b"[heap]").unwrap();
    assert_eq!(again.address.start, first.address.start);
    assert_eq!(again.address.end, first.address.end);
}

#[test]
fn anonymous_rows_match_no_name() {
    let table = parse(b"0-1000 r--p 0 0:0 0\n").unwrap();
    assert!(find_by_name(&table, b"").is_err());
}
