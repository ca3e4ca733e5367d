use ram_map::colors::{
    color_for, format_addr, gap_color, memory_type_label, region_color, size_unit, status_color, status_label, Rgb,
    SizeUnit,
};
use ram_map::input::{MemoryRegion, MemoryType, RegionStatus};

fn region(name: &str, status: RegionStatus, mem_type: MemoryType) -> MemoryRegion {
    MemoryRegion {
        start: 0,
        end: 16,
        status,
        mem_type,
        permissions: String::new(),
        name: name.to_string(),
    }
}

#[test]
fn format_addr_groups_digits() {
    assert_eq!(format_addr(0x40_0000), "0x0000_0040_0000");
    assert_eq!(format_addr(0), "0x0000_0000_0000");
    assert_eq!(format_addr(0xdead_beef_cafe_f00d), "0xdead_beef_cafe_f00d");
    assert_eq!(format_addr(0x1_2345_6789_abcd), "0x1234_5678_9abc_d");
}

#[test]
fn size_units() {
    assert_eq!(size_unit(1023), SizeUnit::Bytes);
    assert_eq!(size_unit(1024), SizeUnit::KiB);
    assert_eq!(size_unit(1024 * 1024), SizeUnit::MiB);
    assert_eq!(size_unit(1024 * 1024 * 1024), SizeUnit::GiB);
}

#[test]
fn status_labels_and_colors() {
    assert_eq!(status_label(RegionStatus::Free), "Free");
    assert_eq!(status_label(RegionStatus::Used), "Used");
    assert_eq!(status_label(RegionStatus::Drop), "Drop");
    assert_eq!(status_color(RegionStatus::Used), Rgb { r: 60, g: 160, b: 60 });
    assert_eq!(gap_color(), Rgb { r: 40, g: 40, b: 50 });
}

#[test]
fn region_colors_follow_names() {
    let c = |n: &str| region_color(&region(n, RegionStatus::Used, MemoryType::Cached));
    assert_eq!(c("Nucleus CODE"), Rgb { r: 70, g: 130, b: 220 });
    assert_eq!(c("kernel rodata"), Rgb { r: 100, g: 180, b: 230 });
    assert_eq!(c("BSS"), Rgb { r: 120, g: 190, b: 120 });
    assert_eq!(c("Data"), Rgb { r: 80, g: 170, b: 80 });
    assert_eq!(c("Boot stack"), Rgb { r: 230, g: 160, b: 50 });
    assert_eq!(c("L0 table"), Rgb { r: 160, g: 120, b: 210 });
    assert_eq!(c("Heap"), Rgb { r: 220, g: 200, b: 60 });
    assert_eq!(c("RAM"), Rgb { r: 100, g: 160, b: 200 });
    let d = |n: &str| region_color(&region(n, RegionStatus::Drop, MemoryType::Cached));
    assert_eq!(d("Init_Thread"), Rgb { r: 140, g: 100, b: 60 });
    assert_eq!(d("DTB"), Rgb { r: 170, g: 130, b: 90 });
    assert_eq!(d("Identity map"), Rgb { r: 120, g: 90, b: 70 });
    assert_eq!(d("other"), Rgb { r: 130, g: 110, b: 90 });
    assert_eq!(
        region_color(&region("code", RegionStatus::Used, MemoryType::Device)),
        Rgb { r: 220, g: 80, b: 60 }
    );
    assert_eq!(
        region_color(&region("code", RegionStatus::Free, MemoryType::Cached)),
        Rgb { r: 60, g: 60, b: 70 }
    );
}

#[test]
fn color_for_takes_lower_case_name() {
    assert_eq!(
        color_for(MemoryType::Cached, RegionStatus::Used, "CODE"),
        Rgb { r: 100, g: 160, b: 200 }
    );
    assert_eq!(
        color_for(MemoryType::Cached, RegionStatus::Used, "code"),
        Rgb { r: 70, g: 130, b: 220 }
    );
}

#[test]
fn memory_type_labels() {
    assert_eq!(memory_type_label(MemoryType::Cached), "Cached");
    assert_eq!(memory_type_label(MemoryType::Device), "Device");
}
