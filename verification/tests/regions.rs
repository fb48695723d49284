use memsnap::models::{MemoryRegion, RegionType};
use memsnap::regions::{
    base_address_string, classify_region, committed_size, count_owned_threads, details_for,
    find_module_name, find_region_containing, is_likely_heap, is_likely_stack,
    next_query_address, parse_readable_from_protection, parse_writable_from_protection,
    protection_to_string, region_from_basic_info, region_from_row, region_type_to_str,
    state_to_string, str_to_region_type, type_info_to_string, BasicInfo, ModuleInfo, RegionRow,
    MEM_COMMIT, MEM_FREE, MEM_IMAGE, MEM_MAPPED, MEM_PRIVATE, MEM_RESERVE, PAGE_EXECUTE_READ,
    PAGE_GUARD, PAGE_NOACCESS, PAGE_NOCACHE, PAGE_READONLY, PAGE_READWRITE, PAGE_WRITECOMBINE,
    PAGE_WRITECOPY, walk_step, WalkNext,
};

fn region(base: &str, size: i64, state: &str) -> MemoryRegion {
    MemoryRegion {
        id: 1,
        snapshot_id: 1,
        region_type: RegionType::Private,
        base_address: base.to_string(),
        region_size: size,
        protection: "RW-".to_string(),
        state: state.to_string(),
        type_info: "Private".to_string(),
        module_name: String::new(),
        details: String::new(),
        has_data: true,
        is_readable: true,
        is_writable: true,
    }
}

#[test]
fn region_type_names_roundtrip() {
    let all = [
        RegionType::Image,
        RegionType::Heap,
        RegionType::Stack,
        RegionType::Private,
        RegionType::Mapped,
        RegionType::Other,
    ];
    for t in all {
        assert_eq!(str_to_region_type(region_type_to_str(&t)), t);
    }
    assert_eq!(region_type_to_str(&RegionType::Heap), "heap");
    assert_eq!(str_to_region_type("bogus"), RegionType::Other);
    assert_eq!(str_to_region_type("Image"), RegionType::Other);
}

#[test]
fn protection_text_parsing() {
    assert!(parse_readable_from_protection("R--"));
    assert!(!parse_writable_from_protection("R--"));
    assert!(parse_readable_from_protection("RW-"));
    assert!(parse_writable_from_protection("RW-"));
    assert!(parse_readable_from_protection("RWXC|NC"));
    assert!(parse_writable_from_protection("RWXC|NC"));
    assert!(!parse_readable_from_protection("RW-|GUARD"));
    assert!(!parse_writable_from_protection("RW-|GUARD"));
    assert!(!parse_readable_from_protection("NOA"));
    assert!(!parse_readable_from_protection("--X"));
    assert!(!parse_readable_from_protection(""));
    assert!(parse_readable_from_protection("R-X"));
    assert!(!parse_writable_from_protection("R-X"));
}

#[test]
fn protection_strings() {
    assert_eq!(protection_to_string(PAGE_READWRITE), "RW-");
    assert_eq!(protection_to_string(PAGE_READWRITE | PAGE_GUARD), "RW-|GUARD");
    assert_eq!(
        protection_to_string(PAGE_READONLY | PAGE_NOCACHE | PAGE_WRITECOMBINE),
        "R--|NC|WC"
    );
    assert_eq!(protection_to_string(0x80), "RWXC");
    assert_eq!(protection_to_string(0x10), "--X");
    assert_eq!(protection_to_string(PAGE_NOACCESS), "NOA");
    assert_eq!(protection_to_string(0x99), "???");
    assert_eq!(protection_to_string(0), "???");
}

#[test]
fn protection_text_agrees_with_parsing() {
    for prot in 0u32..0x800 {
        let text = protection_to_string(prot);
        let base = prot & 0xFF;
        let guard = prot & PAGE_GUARD != 0;
        let readable = [0x02, 0x04, 0x08, 0x20, 0x40, 0x80].contains(&base) && !guard;
        let writable = [0x04, 0x08, 0x40, 0x80].contains(&base) && !guard;
        assert_eq!(parse_readable_from_protection(&text), readable, "{:#x}", prot);
        assert_eq!(parse_writable_from_protection(&text), writable, "{:#x}", prot);
    }
}

#[test]
fn state_and_type_strings() {
    assert_eq!(state_to_string(MEM_COMMIT), "Commit");
    assert_eq!(state_to_string(MEM_FREE), "Free");
    assert_eq!(state_to_string(MEM_RESERVE), "Reserve");
    assert_eq!(state_to_string(7), "Unknown(7)");
    assert_eq!(state_to_string(0), "Unknown(0)");
    assert_eq!(type_info_to_string(MEM_IMAGE), "Image");
    assert_eq!(type_info_to_string(MEM_MAPPED), "Mapped");
    assert_eq!(type_info_to_string(MEM_PRIVATE), "Private");
    assert_eq!(type_info_to_string(4294967295), "Unknown(4294967295)");
}

#[test]
fn base_address_strings() {
    assert_eq!(base_address_string(0), "0");
    assert_eq!(base_address_string(0x7FF6A), "7FF6A");
    assert_eq!(base_address_string(u64::MAX), "FFFFFFFFFFFFFFFF");
    for a in [1u64, 15, 16, 255, 0x1234_5678_9ABC, u64::MAX - 1] {
        assert_eq!(base_address_string(a), format!("{:X}", a));
        assert_eq!(memsnap::pattern::parse_address(&base_address_string(a)).unwrap(), a);
    }
}

fn info(base: u64, size: i64, state: u32, protect: u32, mem_type: u32) -> BasicInfo {
    BasicInfo { base, size, state, protect, mem_type }
}

#[test]
fn classification() {
    let modules = vec![ModuleInfo { base: 0x4000_0000, size: 0, name: "app.exe".to_string() }];
    let img = info(0x1000, 0x1000, MEM_COMMIT, PAGE_READONLY, MEM_IMAGE);
    assert_eq!(classify_region(0x1000, 0x1000, &img, &modules), RegionType::Image);
    let modbase = info(0x4000_0000, 0x1000, MEM_COMMIT, PAGE_READONLY, MEM_PRIVATE);
    assert_eq!(classify_region(0x4000_0000, 0x1000, &modbase, &modules), RegionType::Image);
    let mapped = info(0x5000, 0x1000, MEM_COMMIT, PAGE_READWRITE, MEM_MAPPED);
    assert_eq!(classify_region(0x5000, 0x1000, &mapped, &modules), RegionType::Mapped);
    let guard = info(0x5_0000_0000, 0x1000, MEM_COMMIT, PAGE_READWRITE | PAGE_GUARD, MEM_PRIVATE);
    assert_eq!(classify_region(0x5_0000_0000, 0x1000, &guard, &modules), RegionType::Stack);
    let low_rw = info(0x10000, 0x1000, MEM_COMMIT, PAGE_READWRITE, MEM_PRIVATE);
    assert_eq!(classify_region(0x10000, 0x1000, &low_rw, &modules), RegionType::Stack);
    let high_rw = info(0x5_0000_0000, 0x1000, MEM_COMMIT, PAGE_READWRITE, MEM_PRIVATE);
    assert_eq!(classify_region(0x5_0000_0000, 0x1000, &high_rw, &modules), RegionType::Heap);
    let big_rw = info(0x10000, 0x300000, MEM_COMMIT, PAGE_WRITECOPY, MEM_PRIVATE);
    assert_eq!(classify_region(0x10000, 0x300000, &big_rw, &modules), RegionType::Heap);
    let exec = info(0x5_0000_0000, 0x1000, MEM_COMMIT, PAGE_EXECUTE_READ, MEM_PRIVATE);
    assert_eq!(classify_region(0x5_0000_0000, 0x1000, &exec, &modules), RegionType::Private);
    assert!(is_likely_stack(0x7FF0_0000_0000_1000, 0x1000, &high_rw));
    assert!(!is_likely_stack(0x7FF1_0000_0000_1000, 0x1000, &high_rw));
    assert!(is_likely_heap(&high_rw));
    assert!(!is_likely_heap(&mapped));
}

#[test]
fn module_names_and_details() {
    let modules = vec![
        ModuleInfo { base: 0x1000, size: 0, name: "a.dll".to_string() },
        ModuleInfo { base: 0x1000, size: 0, name: "b.dll".to_string() },
    ];
    assert_eq!(find_module_name(0x1000, &modules), "a.dll");
    assert_eq!(find_module_name(0x2000, &modules), "");
    assert_eq!(details_for(RegionType::Heap, &String::new()), "堆区域");
    assert_eq!(details_for(RegionType::Stack, &String::new()), "线程栈");
    assert_eq!(details_for(RegionType::Private, &String::new()), "私有提交区域");
    assert_eq!(details_for(RegionType::Mapped, &String::new()), "映射文件");
    assert_eq!(details_for(RegionType::Image, &String::new()), "");
    assert_eq!(details_for(RegionType::Heap, &"x.dll".to_string()), "");
}

#[test]
fn records_from_basic_info() {
    let modules: Vec<ModuleInfo> = Vec::new();
    let free = info(0, 0x10000, MEM_FREE, PAGE_NOACCESS, 0);
    assert!(region_from_basic_info(&free, &modules, 3, true).is_none());
    let heap = info(0x5_0000_0000, 0x2000, MEM_COMMIT, PAGE_READWRITE, MEM_PRIVATE);
    let r = region_from_basic_info(&heap, &modules, 3, true).unwrap();
    assert_eq!(r.id, 0);
    assert_eq!(r.snapshot_id, 3);
    assert_eq!(r.region_type, RegionType::Heap);
    assert_eq!(r.base_address, "500000000");
    assert_eq!(r.region_size, 0x2000);
    assert_eq!(r.protection, "RW-");
    assert_eq!(r.state, "Commit");
    assert_eq!(r.type_info, "Private");
    assert_eq!(r.module_name, "");
    assert_eq!(r.details, "堆区域");
    assert!(r.has_data && r.is_readable && r.is_writable);
    let reserved = info(0x6_0000_0000, 0x2000, MEM_RESERVE, PAGE_NOACCESS, MEM_PRIVATE);
    let r = region_from_basic_info(&reserved, &modules, 3, true).unwrap();
    assert!(!r.has_data && !r.is_readable && !r.is_writable);
    assert_eq!(r.state, "Reserve");
    let r = region_from_basic_info(&heap, &modules, 3, false).unwrap();
    assert!(!r.has_data);
    assert_eq!(next_query_address(&heap), 0x5_0000_2000);
}

#[test]
fn records_from_rows() {
    let row = RegionRow {
        id: 7,
        snapshot_id: 2,
        region_type: "stack".to_string(),
        base_address: "1000".to_string(),
        region_size: 4096,
        protection: Some("R--".to_string()),
        state: None,
        type_info: Some("Private".to_string()),
        module_name: None,
        details: Some("d".to_string()),
        data_length_flag: 1,
        readable_flag: Some(0),
        writable_flag: None,
    };
    let r = region_from_row(row.clone());
    assert_eq!(r.id, 7);
    assert_eq!(r.region_type, RegionType::Stack);
    assert_eq!(r.state, "");
    assert_eq!(r.module_name, "");
    assert_eq!(r.details, "d");
    assert!(r.has_data);
    assert!(r.is_readable);
    assert!(!r.is_writable);
    let mut row2 = row.clone();
    row2.protection = None;
    row2.readable_flag = None;
    row2.writable_flag = Some(1);
    row2.data_length_flag = 0;
    let r = region_from_row(row2);
    assert!(r.is_readable && r.is_writable && !r.has_data);
    assert_eq!(r.protection, "");
}

#[test]
fn finding_containing_region() {
    let regions = vec![region("1000", 0x1000, "Commit"), region("3000", 0x100, "Commit"), region("3000", 0x1000, "Commit")];
    assert_eq!(find_region_containing(&regions, 0x1000), Some(0));
    assert_eq!(find_region_containing(&regions, 0x1FFF), Some(0));
    assert_eq!(find_region_containing(&regions, 0x2000), None);
    assert_eq!(find_region_containing(&regions, 0x30FF), Some(1));
    assert_eq!(find_region_containing(&regions, 0x3100), Some(2));
    assert_eq!(find_region_containing(&regions, 0x5000), None);
    let bad = vec![region("zz", 0x10, "Commit")];
    assert_eq!(find_region_containing(&bad, 5), Some(0));
}

#[test]
fn committed_totals() {
    let regions = vec![
        region("1000", 0x1000, "Commit"),
        region("2000", 0x5000, "Reserve"),
        region("8000", 0x2000, "Commit"),
    ];
    assert_eq!(committed_size(&regions), 0x3000);
    assert_eq!(committed_size(&Vec::new()), 0);
}

#[test]
fn thread_counts() {
    assert_eq!(count_owned_threads(&[4, 8, 4, 4, 1], 4), 3);
    assert_eq!(count_owned_threads(&[], 4), 0);
    assert_eq!(count_owned_threads(&[1, 2], 4), 0);
}

#[test]
fn walk_step_decisions() {
    let modules: Vec<ModuleInfo> = Vec::new();
    let (r, next) = walk_step(None, &modules, 3, true);
    assert!(r.is_none());
    assert_eq!(next, WalkNext::Stop);

    let free = info(0x1000, 0x2000, MEM_FREE, PAGE_NOACCESS, 0);
    let (r, next) = walk_step(Some(free), &modules, 3, true);
    assert!(r.is_none());
    assert_eq!(next, WalkNext::Query(0x3000));

    let committed = info(0x3000, 0x1000, MEM_COMMIT, PAGE_READWRITE, MEM_PRIVATE);
    let (r, next) = walk_step(Some(committed), &modules, 3, true);
    let r = r.unwrap();
    assert_eq!(r.base_address, "3000");
    assert_eq!(r.snapshot_id, 3);
    assert!(r.has_data);
    assert_eq!(next, WalkNext::Query(0x4000));

    let last = info(0, 0, MEM_RESERVE, PAGE_NOACCESS, MEM_PRIVATE);
    let (r, next) = walk_step(Some(last), &modules, 3, false);
    assert!(r.is_some());
    assert_eq!(next, WalkNext::Stop);

    let free_last = info(0, 0, MEM_FREE, PAGE_NOACCESS, 0);
    let (r, next) = walk_step(Some(free_last), &modules, 3, false);
    assert!(r.is_none());
    assert_eq!(next, WalkNext::Query(0));
}
