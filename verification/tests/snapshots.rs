use memsnap::models::{MemoryRegion, RegionType};
use memsnap::pattern::{search_pattern, PatternErrorKind};
use memsnap::snapshot::{
    capture_length, check_read_request, data_file_name, plan_region_read,
    read_result, scan_pattern_of, snapshot_from_row, ReadError, ScanState, SnapshotBuilder,
    MAX_CAPTURE_BYTES,
};
use memsnap::text::IntErrorKind;

fn region(base: &str, size: i64, state: &str) -> MemoryRegion {
    MemoryRegion {
        id: 9,
        snapshot_id: 1,
        region_type: RegionType::Heap,
        base_address: base.to_string(),
        region_size: size,
        protection: "RW-".to_string(),
        state: state.to_string(),
        type_info: "Private".to_string(),
        module_name: "m.dll".to_string(),
        details: String::new(),
        has_data: true,
        is_readable: true,
        is_writable: true,
    }
}

#[test]
fn data_file_names() {
    assert_eq!(data_file_name(12), "snapshot_12.bin");
    assert_eq!(data_file_name(0), "snapshot_0.bin");
    assert_eq!(data_file_name(-3), "snapshot_-3.bin");
    assert_eq!(data_file_name(i64::MIN), format!("snapshot_{}.bin", i64::MIN));
    assert_eq!(data_file_name(i64::MAX), format!("snapshot_{}.bin", i64::MAX));
}

#[test]
fn capture_lengths() {
    assert_eq!(capture_length(&region("1000", 0x2000, "Commit")), Some(0x2000));
    assert_eq!(capture_length(&region("1000", 0x2000, "Reserve")), None);
    assert_eq!(
        capture_length(&region("1000", 0x2000_0000, "Commit")),
        Some(MAX_CAPTURE_BYTES)
    );
    assert_eq!(MAX_CAPTURE_BYTES, 256 * 1024 * 1024);
    assert_eq!(capture_length(&region("1000", -1, "Commit")), Some(MAX_CAPTURE_BYTES));
}

#[test]
fn builder_tiles_extents() {
    let mut b = SnapshotBuilder::new();
    assert_eq!(b.record_stored(100), (0, 100));
    b.count_region();
    b.count_region();
    assert_eq!(b.record_stored(50), (100, 50));
    b.count_region();
    assert_eq!(b.total_bytes(), 150);
    assert_eq!(b.region_count(), 3);
}

#[test]
fn snapshot_rows() {
    let s = snapshot_from_row(4, 1234, "a.exe".into(), "C:\\a.exe".into(), 10, 2, 99);
    assert_eq!(s.id, 4);
    assert_eq!(s.pid, 1234);
    assert_eq!(s.process_name, "a.exe");
    assert_eq!(s.total_size_bytes, 10);
    let s = snapshot_from_row(4, 0x1_0000_0005, "a".into(), "b".into(), 0, 0, 0);
    assert_eq!(s.pid, 5);
}

#[test]
fn read_requests() {
    assert_eq!(check_read_request("0x1000", 16).unwrap(), 0x1000);
    match check_read_request("zz", 16) {
        Err(ReadError::InvalidAddress(e)) => {
            assert_eq!(e.kind, IntErrorKind::InvalidDigit);
            assert_eq!(e.text, "zz");
        }
        _ => panic!("expected an invalid address"),
    }
    assert!(matches!(check_read_request("10", 0), Err(ReadError::ZeroLength)));
    assert!(matches!(check_read_request("10", 16 * 1024 * 1024 + 1), Err(ReadError::TooLong)));
    assert!(check_read_request("10", 16 * 1024 * 1024).is_ok());
    assert!(matches!(check_read_request("", 0), Err(ReadError::InvalidAddress(_))));
}

#[test]
fn planning_reads() {
    let r = region("1000", 0x1000, "Commit");
    let plan = plan_region_read(0x1010, 8, &r, Some("snapshot_1.bin".into()), 500, 0x100).unwrap();
    assert_eq!(plan.data_path, "snapshot_1.bin");
    assert_eq!(plan.file_position, 516);
    assert_eq!(plan.length, 8);
    let plan = plan_region_read(0x10FC, 64, &r, Some("f".into()), 0, 0x100).unwrap();
    assert_eq!(plan.length, 4);
    assert_eq!(plan.file_position, 0xFC);
    assert!(matches!(plan_region_read(0x1010, 8, &r, None, 0, 0x100), Err(ReadError::NoStoredData)));
    assert!(matches!(
        plan_region_read(0x1100, 8, &r, Some("f".into()), 0, 0x100),
        Err(ReadError::OffsetOutOfRange)
    ));
    assert!(matches!(
        plan_region_read(0x1000, 8, &r, Some("f".into()), 0, 0),
        Err(ReadError::OffsetOutOfRange)
    ));
    assert!(matches!(
        plan_region_read(0x1000, 0, &r, Some("f".into()), 0, 10),
        Err(ReadError::NothingToRead)
    ));
}

#[test]
fn read_results() {
    let r = read_result(0xABC, vec![1, 2, 3]);
    assert_eq!(r.base_address, "ABC");
    assert_eq!(r.length, 3);
    assert_eq!(r.data, vec![1, 2, 3]);
    assert!(r.highlights.is_empty());
    assert_eq!(r.highlight_length, 0);
}

#[test]
fn scan_patterns() {
    assert_eq!(scan_pattern_of("AB ??").unwrap(), vec![Some(0xAB), None]);
    let e = scan_pattern_of("{0}").unwrap_err();
    assert_eq!(e.kind, PatternErrorKind::EmptyPattern);
    let e = scan_pattern_of("").unwrap_err();
    assert_eq!(e.kind, PatternErrorKind::NoTokens);
}

#[test]
fn scanning_regions() {
    let r = region("10000", 0x100, "Commit");
    let data: Vec<u8> = (0u8..32).collect();
    let pattern = [Some(5u8), Some(6)];
    let mut st = ScanState::new();
    st.scan_region(&r, &data, &pattern);
    assert_eq!(st.regions_scanned, 1);
    assert_eq!(st.bytes_scanned, 32);
    assert_eq!(st.matches.len(), 1);
    let m = &st.matches[0];
    assert_eq!(m.address, "10005");
    assert_eq!(m.offset_in_region, "5");
    assert_eq!(m.region_type, RegionType::Heap);
    assert_eq!(m.module_name, "m.dll");
    assert_eq!(m.context_hex, "01 02 03 04 05 06 07 08 09 0A 0B 0C 0D 0E 0F 10 11 12");
    let pattern = [Some(1u8)];
    st.scan_region(&r, &data, &pattern);
    assert_eq!(st.matches.len(), 2);
    assert_eq!(st.matches[1].context_hex, "00 01 02 03 04 05 06 07 08 09 0A 0B 0C 0D");
    let pattern = [Some(31u8)];
    st.scan_region(&r, &data, &pattern);
    assert_eq!(st.matches[2].context_hex, "1B 1C 1D 1E 1F");
    let res = st.finish(42);
    assert_eq!(res.total_matches, 3);
    assert_eq!(res.regions_scanned, 3);
    assert_eq!(res.bytes_scanned, 96);
    assert_eq!(res.elapsed_ms, 42);
    assert_eq!(res.regions_skipped_no_access, 0);
    assert_eq!(res.regions_skipped_guard, 0);
}

#[test]
fn scanning_caps_matches() {
    let r = region("0", 0x10000, "Commit");
    let data = vec![7u8; 3000];
    let pattern = [Some(7u8)];
    assert_eq!(search_pattern(&data, &pattern).len(), 3000);
    let mut st = ScanState::new();
    st.scan_region(&r, &data, &pattern);
    assert_eq!(st.matches.len(), 3000);
    st.scan_region(&r, &data, &pattern);
    assert_eq!(st.matches.len(), 5000);
    st.scan_region(&r, &data, &pattern);
    assert_eq!(st.matches.len(), 5001);
    st.scan_region(&r, &[1, 2, 3], &pattern);
    assert_eq!(st.matches.len(), 5001);
    assert_eq!(st.regions_scanned, 4);
}
