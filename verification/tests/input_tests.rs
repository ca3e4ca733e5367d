use ram_map::colors::{format_addr, status_label};
use ram_map::input::{
    parse_line, parse_regions, regions_would_panic, FileSource, MemoryRegion, MemoryType,
    RegionStatus,
};

#[test]
fn test_parse_line() {
    let line = "[pa00_0040_0000 - pa00_0040_3800) |  14 KiB | (Used) C   RO PX  | Nucleus code";
    let r = parse_line(line).unwrap();
    assert_eq!(r.start, 0x00_0040_0000);
    assert_eq!(r.end, 0x00_0040_3800);
    assert_eq!(r.status, RegionStatus::Used);
    assert_eq!(r.mem_type, MemoryType::Cached);
    assert_eq!(r.name, "Nucleus code");
}

#[test]
fn test_parse_device_line() {
    let line = "[pa00_7e00_b840 - pa00_7e00_b87c) |  60 B   | (Used) Dev RW PXN | mailbox";
    let r = parse_line(line).unwrap();
    assert_eq!(r.mem_type, MemoryType::Device);
    assert_eq!(r.name, "mailbox");
}

#[test]
fn permissions_are_joined_by_single_spaces() {
    let r = parse_line("[pa00_0020_0000 - pa00_0020_7260) |  29 KiB | (Free) C   RW    PXN | RAM")
        .unwrap();
    assert_eq!(r.permissions, "RW PXN");
    assert_eq!(r.status, RegionStatus::Free);
    assert_eq!(r.size(), 0x7260);
}

#[test]
fn drop_status_and_extra_fields() {
    let r = parse_line("[pa00_0008_0000 - pa00_0020_0000) | 2 MiB | (Drop) C RW PXN | Init_Thread | extra")
        .unwrap();
    assert_eq!(r.status, RegionStatus::Drop);
    assert_eq!(r.name, "Init_Thread");
    assert_eq!(r.start, 0x8_0000);
    assert_eq!(r.end, 0x20_0000);
}

#[test]
fn too_few_fields() {
    assert_eq!(
        parse_line("[pa0 - pa1) | 1 B | (Used) C").unwrap_err(),
        "expected at least 4 '|'-separated fields"
    );
}

#[test]
fn missing_end_address() {
    assert_eq!(
        parse_line("[pa00_0040_0000) | 1 B | (Used) C | x").unwrap_err(),
        "missing end address"
    );
}

#[test]
fn bad_start_address() {
    let e = parse_line("[pa00_00g0 - pa10) | 1 B | (Used) C | x").unwrap_err();
    assert!(e.starts_with("bad address 'pa00_00g0': "), "{e}");
}

#[test]
fn bad_end_address_empty() {
    let e = parse_line("[pa10 - ) | 1 B | (Used) C | x").unwrap_err();
    assert!(e.starts_with("bad address '': "), "{e}");
}

#[test]
fn address_too_large() {
    let e = parse_line("[pa1_0000_0000_0000_0000 - pa10) | 1 B | (Used) C | x").unwrap_err();
    assert!(e.starts_with("bad address 'pa1_0000_0000_0000_0000': "), "{e}");
}

#[test]
fn largest_address_reads() {
    let r = parse_line("[paffff_ffff_ffff_ffff - paFFFF_FFFF_FFFF_FFFF) | 0 B | (Used) C | top").unwrap();
    assert_eq!(r.start, u64::MAX);
    assert_eq!(r.end, u64::MAX);
    assert_eq!(r.size(), 0);
}

#[test]
fn repeated_pa_prefixes_and_plus_sign() {
    let r = parse_line("[[papa10 - +20))) | x | (Used) C | y").unwrap();
    assert_eq!(r.start, 0x10);
    assert_eq!(r.end, 0x20);
}

#[test]
fn missing_parentheses() {
    assert_eq!(parse_line("[pa0 - pa1) | 1 B | Used) C | x").unwrap_err(), "missing '('");
    assert_eq!(parse_line("[pa0 - pa1) | 1 B | (Used C | x").unwrap_err(), "missing ')'");
}

#[test]
fn unknown_status_and_type() {
    assert_eq!(
        parse_line("[pa0 - pa1) | 1 B | (Busy) C | x").unwrap_err(),
        "unknown status: Busy"
    );
    assert_eq!(
        parse_line("[pa0 - pa1) | 1 B | (Used) Nc RW | x").unwrap_err(),
        "unknown memory type: Nc"
    );
    assert_eq!(
        parse_line("[pa0 - pa1) | 1 B | (Used)   | x").unwrap_err(),
        "unknown memory type: "
    );
}

#[test]
fn regions_are_sorted_and_blank_lines_skipped() {
    let input = "\n  [pa00_4000_0000 - pa00_4000_0100) | 256 B   | (Used) Dev RW PXN | local_intc\r\n\n[pa00_0020_0000 - pa00_0020_7260) |  29 KiB | (Free) C   RW PXN | RAM\n[pa00_0020_0000 - pa00_0020_0010) | 16 B | (Used) C RO | first\n[pa00_0020_0000 - pa00_0020_0010) | 16 B | (Used) C RO | second\n";
    let v: Vec<MemoryRegion> = parse_regions(input).unwrap();
    let names: Vec<&str> = v.iter().map(|r| r.name.as_str()).collect();
    assert_eq!(names, vec!["first", "second", "RAM", "local_intc"]);
}

#[test]
fn error_names_the_line() {
    let input = "[pa0 - pa1) | 1 B | (Used) C | ok\n\n   [pa0 - pa1) | 1 B | (Gone) C | bad  \n";
    assert_eq!(
        parse_regions(input).unwrap_err(),
        "line 3: unknown status: Gone: [pa0 - pa1) | 1 B | (Gone) C | bad"
    );
}

#[test]
fn empty_input_has_no_regions() {
    assert!(parse_regions("").unwrap().is_empty());
    assert!(parse_regions("  \n \t\n").unwrap().is_empty());
}

#[test]
fn panic_check_finds_reversed_parentheses() {
    assert!(regions_would_panic("[pa0 - pa1) | 1 B | )Used( C | x"));
    assert!(!regions_would_panic("[pa0 - pa1) | 1 B | (Gone) C | x\n[pa0 - pa1) | 1 B | )Used( C | x"));
    assert!(!regions_would_panic("[pa0 - pa1) | 1 B | (Used) C | x"));
}

#[test]
fn file_source_keeps_its_path() {
    let f = FileSource::new("map.txt");
    assert_eq!(f.path(), "map.txt");
}

#[test]
fn bad_address_error_carries_the_number_error() {
    assert_eq!(
        parse_line("[pa0x1 - pa10) | 1 B | (Used) C | x").unwrap_err(),
        "bad address 'pa0x1': invalid digit found in string"
    );
    assert_eq!(
        parse_line("[pa - pa10) | 1 B | (Used) C | x").unwrap_err(),
        "bad address 'pa': cannot parse integer from empty string"
    );
}

#[test]
fn attributes_read_back_their_status_and_type() {
    for status in [RegionStatus::Free, RegionStatus::Used, RegionStatus::Drop] {
        for (code, mem_type) in [("C", MemoryType::Cached), ("Dev", MemoryType::Device)] {
            let line = format!(
                "[pa00_0000_1000 - pa00_0000_2000) |   4 KiB | ({}) {}   RW  PXN | RAM",
                status_label(status),
                code
            );
            let r = parse_line(&line).unwrap();
            assert_eq!(r.status, status);
            assert_eq!(r.mem_type, mem_type);
            assert_eq!(r.permissions, "RW PXN");
        }
    }
}

#[test]
fn formatted_addresses_read_back() {
    for a in [0u64, 1, 0x40_3800, 0x1234_5678_9abc, 0xffff_ffff_ffff, 0x1_0000_0000_0000, u64::MAX] {
        let s = format_addr(a);
        let line = format!("[pa{} - pa{}) | 0 B | (Used) C RW | x", &s[2..], &s[2..]);
        let r = parse_line(&line).unwrap();
        assert_eq!(r.start, a);
        assert_eq!(r.end, a);
    }
}
