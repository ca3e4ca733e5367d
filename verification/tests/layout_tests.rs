use ram_map::input::{MemoryRegion, MemoryType, RegionStatus};
use ram_map::layout::{build_blocks, wrap_rows, VisualBlock};

fn region(start: u64, end: u64, status: RegionStatus, name: &str) -> MemoryRegion {
    MemoryRegion {
        start,
        end,
        status,
        mem_type: MemoryType::Cached,
        permissions: "RW".to_string(),
        name: name.to_string(),
    }
}

fn describe(b: &VisualBlock) -> (char, u64, u64, String) {
    match b {
        VisualBlock::Region { region } => ('R', region.start, region.end, region.name.clone()),
        VisualBlock::Gap { start, end } => ('G', *start, *end, String::new()),
    }
}

#[test]
fn no_regions_no_blocks() {
    assert!(build_blocks(&[], 64 * 1024).is_empty());
}

#[test]
fn small_gaps_become_free_regions_and_large_gaps_are_compressed() {
    let regions = vec![
        region(0x1000, 0x2000, RegionStatus::Used, "a"),
        region(0x2100, 0x3000, RegionStatus::Used, "b"),
        region(0x10_0000, 0x10_1000, RegionStatus::Used, "c"),
    ];
    let blocks = build_blocks(&regions, 64 * 1024);
    let d: Vec<_> = blocks.iter().map(describe).collect();
    assert_eq!(
        d,
        vec![
            ('R', 0x1000, 0x2000, "a".to_string()),
            ('R', 0x2000, 0x2100, "(gap)".to_string()),
            ('R', 0x2100, 0x3000, "b".to_string()),
            ('G', 0x3000, 0x10_0000, String::new()),
            ('R', 0x10_0000, 0x10_1000, "c".to_string()),
        ]
    );
    match &blocks[1] {
        VisualBlock::Region { region } => {
            assert_eq!(region.status, RegionStatus::Free);
            assert_eq!(region.mem_type, MemoryType::Cached);
            assert_eq!(region.permissions, "");
        }
        _ => panic!("expected a filler region"),
    }
    assert_eq!(blocks[3].start(), 0x3000);
    assert_eq!(blocks[3].end(), 0x10_0000);
}

#[test]
fn large_free_regions_are_compressed() {
    let regions = vec![
        region(0, 0x20_0000, RegionStatus::Free, "RAM"),
        region(0x20_0000, 0x20_1000, RegionStatus::Free, "small"),
    ];
    let d: Vec<_> = build_blocks(&regions, 64 * 1024).iter().map(describe).collect();
    assert_eq!(
        d,
        vec![('G', 0, 0x20_0000, String::new()), ('R', 0x20_0000, 0x20_1000, "small".to_string())]
    );
}

#[test]
fn overlapping_regions_do_not_move_the_frontier_back() {
    let regions = vec![
        region(0x0, 0x4000, RegionStatus::Used, "outer"),
        region(0x1000, 0x2000, RegionStatus::Used, "inner"),
        region(0x5000, 0x6000, RegionStatus::Used, "next"),
    ];
    let d: Vec<_> = build_blocks(&regions, 64 * 1024).iter().map(describe).collect();
    assert_eq!(
        d,
        vec![
            ('R', 0x0, 0x4000, "outer".to_string()),
            ('R', 0x1000, 0x2000, "inner".to_string()),
            ('R', 0x4000, 0x5000, "(gap)".to_string()),
            ('R', 0x5000, 0x6000, "next".to_string()),
        ]
    );
}

#[test]
fn rows_hold_target_blocks() {
    let regions: Vec<_> = (0..7u64)
        .map(|i| region(i * 0x100, i * 0x100 + 0x100, RegionStatus::Used, "r"))
        .collect();
    let blocks = build_blocks(&regions, 64 * 1024);
    let rows = wrap_rows(&blocks, 3, 20);
    let lens: Vec<usize> = rows.iter().map(|r| r.len()).collect();
    assert_eq!(lens, vec![3, 3, 1]);
    assert_eq!(rows[2][0].start(), 0x600);
    // The fit limit wins over the preference, and at least one block per row.
    assert_eq!(wrap_rows(&blocks, 20, 2).len(), 4);
    assert_eq!(wrap_rows(&blocks, 0, 0).len(), 7);
    assert!(wrap_rows(&Vec::new(), 3, 3).is_empty());
}

#[test]
fn overlapping_regions_cover_their_span() {
    let regions = vec![
        region(0x1000, 0x9000, RegionStatus::Used, "outer"),
        region(0x2000, 0x3000, RegionStatus::Used, "inner"),
        region(0x2000, 0xa000, RegionStatus::Used, "longer"),
        region(0xb000, 0xc000, RegionStatus::Used, "last"),
    ];
    let blocks = build_blocks(&regions, 64 * 1024);
    let spans: Vec<(u64, u64)> = blocks.iter().map(|b| (b.start(), b.end())).collect();
    assert_eq!(spans[0].0, 0x1000);
    for w in spans.windows(2) {
        assert!(w[0].0 <= w[1].0);
    }
    for &(s, e) in &spans {
        assert!(0x1000 <= s && s <= e && e <= 0xc000);
    }
    assert!(spans.iter().any(|&(_, e)| e == 0xc000));
    let mut a = 0x1000u64;
    while a < 0xc000 {
        assert!(spans.iter().any(|&(s, e)| s <= a && a < e), "address {:#x} not covered", a);
        a += 0x100;
    }
}
