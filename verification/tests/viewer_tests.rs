use ram_map::input::{MemoryRegion, MemoryType, RegionStatus};
use ram_map::viewer::{
    cell_borders, filter_regions, filtered_to_original, find_region, fill_cells, fit_cell_counts,
    toggle_selection, truncate_label, BlockAlloc, HilbertCell, ViewerState,
};

fn region(start: u64, end: u64, status: RegionStatus, name: &str) -> MemoryRegion {
    MemoryRegion {
        start,
        end,
        status,
        mem_type: MemoryType::Cached,
        permissions: String::new(),
        name: name.to_string(),
    }
}

fn block(region_idx: usize, is_gap: bool, cell_count: u32) -> BlockAlloc {
    BlockAlloc { region_idx, is_gap, cell_count }
}

#[test]
fn filtering_hides_statuses() {
    let regions = vec![
        region(0, 1, RegionStatus::Free, "f"),
        region(1, 2, RegionStatus::Used, "u"),
        region(2, 3, RegionStatus::Drop, "d"),
    ];
    let names = |v: Vec<MemoryRegion>| v.into_iter().map(|r| r.name).collect::<Vec<_>>();
    assert_eq!(names(filter_regions(&regions, true, true)), vec!["f", "u", "d"]);
    assert_eq!(names(filter_regions(&regions, false, true)), vec!["f", "u"]);
    assert_eq!(names(filter_regions(&regions, true, false)), vec!["u", "d"]);
    assert_eq!(names(filter_regions(&regions, false, false)), vec!["u"]);
}

#[test]
fn finding_regions() {
    let regions = vec![
        region(0, 1, RegionStatus::Free, "a"),
        region(1, 2, RegionStatus::Used, "b"),
        region(1, 2, RegionStatus::Drop, "b"),
    ];
    assert_eq!(find_region(&regions, 1, 2, "b"), Some(1));
    assert_eq!(find_region(&regions, 1, 2, "c"), None);
    let filtered = vec![region(1, 2, RegionStatus::Drop, "b")];
    assert_eq!(filtered_to_original(&regions, &filtered, 0), Some(1));
    assert_eq!(filtered_to_original(&regions, &filtered, 1), None);
}

#[test]
fn fitting_gives_the_rest_to_the_last_largest() {
    let mut a = vec![block(0, false, 0), block(1, false, 5), block(0, true, 5), block(2, false, 2)];
    fit_cell_counts(&mut a, 16);
    let counts: Vec<u32> = a.iter().map(|x| x.cell_count).collect();
    assert_eq!(counts, vec![1, 5, 8, 2]);
    assert_eq!(counts.iter().sum::<u32>(), 16);
    let (cells, _) = fill_cells(&a, 16, 3);
    assert!(cells.iter().all(|c| c.is_some()));
}

#[test]
fn fitting_takes_the_excess_from_the_largest() {
    let mut a = vec![block(0, false, 10), block(1, false, 3)];
    fit_cell_counts(&mut a, 8);
    assert_eq!(a.iter().map(|x| x.cell_count).collect::<Vec<_>>(), vec![5, 3]);
    // Too much excess: nothing changes.
    let mut b = vec![block(0, false, 3), block(1, false, 3)];
    fit_cell_counts(&mut b, 2);
    assert_eq!(b.iter().map(|x| x.cell_count).collect::<Vec<_>>(), vec![3, 3]);
    let mut empty: Vec<BlockAlloc> = Vec::new();
    fit_cell_counts(&mut empty, 4);
    assert!(empty.is_empty());
}

#[test]
fn filling_cells_along_the_curve() {
    let a = vec![block(0, false, 2), block(0, true, 1), block(1, false, 3)];
    let (cells, counts) = fill_cells(&a, 5, 3);
    assert_eq!(
        cells,
        vec![
            Some(HilbertCell { region_idx: 0, is_gap: false }),
            Some(HilbertCell { region_idx: 0, is_gap: false }),
            Some(HilbertCell { region_idx: 0, is_gap: true }),
            Some(HilbertCell { region_idx: 1, is_gap: false }),
            Some(HilbertCell { region_idx: 1, is_gap: false }),
        ]
    );
    assert_eq!(counts, vec![2, 2, 0]);
    let (cells, counts) = fill_cells(&a[..1], 4, 1);
    assert_eq!(cells[2], None);
    assert_eq!(cells[3], None);
    assert_eq!(counts, vec![2]);
}

#[test]
fn borders_between_blocks() {
    // Order 1: cells in curve order are (0,0), (1,0), (1,1), (0,1).
    let c = |i| Some(HilbertCell { region_idx: i, is_gap: false });
    let cells = vec![c(0), c(0), c(1), c(1)];
    // Cell 0 at (0,0): right neighbour (1,0) is cell 1 (same), bottom (0,1) is cell 3 (other).
    assert_eq!(cell_borders(1, &cells, 0), (false, true));
    // Cell 1 at (1,0): no right neighbour, bottom (1,1) is cell 2 (other).
    assert_eq!(cell_borders(1, &cells, 1), (false, true));
    // Cell 3 at (0,1): right neighbour (1,1) is cell 2 (same), no bottom.
    assert_eq!(cell_borders(1, &cells, 3), (false, false));
    let holes = vec![c(0), None, None, None];
    assert_eq!(cell_borders(1, &holes, 0), (false, false));
    assert_eq!(cell_borders(1, &holes, 1), (false, false));
}

#[test]
fn labels_are_truncated() {
    assert_eq!(truncate_label("short", 10), "short");
    assert_eq!(truncate_label("Nucleus code", 8), "Nucleus…");
    assert_eq!(truncate_label("Nucleus code", 3), "…");
}

#[test]
fn selection_toggles() {
    assert_eq!(toggle_selection(None, 2), Some(2));
    assert_eq!(toggle_selection(Some(2), 2), None);
    assert_eq!(toggle_selection(Some(1), 2), Some(2));
}

#[test]
fn state_takes_load_results() {
    let mut s = ViewerState::new();
    assert!(s.show_drop && s.show_free && s.dirty);
    assert_eq!(s.gap_threshold_kib, 64);
    assert_eq!(s.hilbert_order, 7);
    assert_eq!(s.gap_threshold(), 64 * 1024);
    s.dirty = false;
    s.apply_load(Err("boom".to_string()));
    assert_eq!(s.error.as_deref(), Some("boom"));
    assert!(!s.dirty);
    s.apply_load(Ok(vec![region(0, 1, RegionStatus::Used, "x")]));
    assert!(s.error.is_none());
    assert!(s.dirty);
    assert_eq!(s.regions.len(), 1);
    s.show_drop = false;
    assert_eq!(s.filtered_regions().len(), 1);
}

#[test]
fn region_counts_are_the_cells_of_each_region() {
    let a = vec![block(1, false, 3), block(0, true, 2), block(0, false, 4), block(1, false, 2)];
    for total in [0u32, 4, 8, 11, 16] {
        let (cells, counts) = fill_cells(&a, total, 3);
        assert_eq!(cells.len(), total as usize);
        for (i, &c) in counts.iter().enumerate() {
            let n = cells
                .iter()
                .filter(|x| **x == Some(HilbertCell { region_idx: i, is_gap: false }))
                .count();
            assert_eq!(c as usize, n);
        }
    }
}

#[test]
fn no_blocks_leave_every_cell_empty() {
    let (cells, counts) = fill_cells(&[], 16, 0);
    assert_eq!(cells.len(), 16);
    assert!(cells.iter().all(|c| c.is_none()));
    assert!(counts.is_empty());
}
