//! Color scheme and formatting utilities for the RAM map viewer.
use crate::input::{status_name, MemoryRegion, MemoryType, RegionStatus};
use crate::text::{chars_of, contains, has_sub, hex_char, hex_digit, push_char, push_str};
use vstd::prelude::*;

verus! {

/// An opaque RGB color.
#[derive(Debug, Clone, Copy, PartialEq, Eq, Structural)]
pub struct Rgb {
    pub r: u8,
    pub g: u8,
    pub b: u8,
}

pub open spec fn rgb(r: u8, g: u8, b: u8) -> Rgb {
    Rgb { r, g, b }
}

fn make_rgb(r: u8, g: u8, b: u8) -> (c: Rgb)
    ensures
        c == rgb(r, g, b),
{
    Rgb { r, g, b }
}

/// The lower-case form that `str::to_lowercase` gives of a text.
pub uninterp spec fn lowercase_text(s: Seq<char>) -> Seq<char>;

/// `str::to_lowercase`: the text in lower case, by Unicode's rules.  The
/// contract names the result; it does not state the Unicode mapping.
#[verifier::external_body]
fn to_lowercase(s: &str) -> (r: String)
    ensures
        r@ == lowercase_text(s@),
{
    s.to_lowercase()
}

/// Color of a used cached region, from its lower-case name.
pub open spec fn spec_used_color(name: Seq<char>) -> Rgb {
    if has_sub(name, "code"@) {
        rgb(70, 130, 220)
    } else if has_sub(name, "read-only"@) || has_sub(name, "rodata"@) {
        rgb(100, 180, 230)
    } else if has_sub(name, "bss"@) {
        rgb(120, 190, 120)
    } else if has_sub(name, "data"@) {
        rgb(80, 170, 80)
    } else if has_sub(name, "stack"@) {
        rgb(230, 160, 50)
    } else if has_sub(name, "mapping"@) || has_sub(name, "l0"@) || has_sub(name, "page"@) {
        rgb(160, 120, 210)
    } else if has_sub(name, "heap"@) {
        rgb(220, 200, 60)
    } else {
        rgb(100, 160, 200)
    }
}

/// Color of a reclaimable cached region, from its lower-case name.
pub open spec fn spec_drop_color(name: Seq<char>) -> Rgb {
    if has_sub(name, "init"@) || has_sub(name, "thread"@) {
        rgb(140, 100, 60)
    } else if has_sub(name, "dtb"@) {
        rgb(170, 130, 90)
    } else if has_sub(name, "identity"@) {
        rgb(120, 90, 70)
    } else {
        rgb(130, 110, 90)
    }
}

/// Color of a region by memory type, then status, then name patterns;
/// `lower_name` is the region's name in lower case.
pub open spec fn spec_region_color(mem_type: MemoryType, status: RegionStatus, lower_name: Seq<char>) -> Rgb {
    match mem_type {
        MemoryType::Device => match status {
            RegionStatus::Used => rgb(220, 80, 60),
            RegionStatus::Free => rgb(180, 120, 90),
            RegionStatus::Drop => rgb(200, 100, 80),
        },
        MemoryType::Cached => match status {
            RegionStatus::Free => rgb(60, 60, 70),
            RegionStatus::Drop => spec_drop_color(lower_name),
            RegionStatus::Used => spec_used_color(lower_name),
        },
    }
}

/// Color palette for memory regions.
/// Colors are chosen for clear visual distinction and readability.
pub fn region_color(region: &MemoryRegion) -> (c: Rgb)
    ensures
        c == spec_region_color(region.mem_type, region.status, lowercase_text(region.name@)),
{
    let lower = to_lowercase(region.name.as_str());
    color_for(region.mem_type, region.status, lower.as_str())
}

/// The color of a region with the given memory type and status whose name,
/// in lower case, is `lower_name`.
pub fn color_for(mem_type: MemoryType, status: RegionStatus, lower_name: &str) -> (c: Rgb)
    ensures
        c == spec_region_color(mem_type, status, lower_name@),
{
    match mem_type {
        MemoryType::Device => match status {
            RegionStatus::Used => make_rgb(220, 80, 60),
            RegionStatus::Free => make_rgb(180, 120, 90),
            RegionStatus::Drop => make_rgb(200, 100, 80),
        },
        MemoryType::Cached => match status {
            RegionStatus::Free => make_rgb(60, 60, 70),
            RegionStatus::Drop => drop_color(lower_name),
            RegionStatus::Used => used_color(lower_name),
        },
    }
}

fn used_color(name: &str) -> (c: Rgb)
    ensures
        c == spec_used_color(name@),
{
    let name = chars_of(name);
    if contains(&name, "code") {
        make_rgb(70, 130, 220)
    } else if contains(&name, "read-only") || contains(&name, "rodata") {
        make_rgb(100, 180, 230)
    } else if contains(&name, "bss") {
        make_rgb(120, 190, 120)
    } else if contains(&name, "data") {
        make_rgb(80, 170, 80)
    } else if contains(&name, "stack") {
        make_rgb(230, 160, 50)
    } else if contains(&name, "mapping") || contains(&name, "l0") || contains(&name, "page") {
        make_rgb(160, 120, 210)
    } else if contains(&name, "heap") {
        make_rgb(220, 200, 60)
    } else {
        make_rgb(100, 160, 200)
    }
}

fn drop_color(name: &str) -> (c: Rgb)
    ensures
        c == spec_drop_color(name@),
{
    let name = chars_of(name);
    if contains(&name, "init") || contains(&name, "thread") {
        make_rgb(140, 100, 60)
    } else if contains(&name, "dtb") {
        make_rgb(170, 130, 90)
    } else if contains(&name, "identity") {
        make_rgb(120, 90, 70)
    } else {
        make_rgb(130, 110, 90)
    }
}

/// How regions are colored.  Device regions and free cached regions by
/// status alone; used cached regions by the first kind that their lower-case
/// name names, in this order: code; read-only data ("read-only", "rodata");
/// bss; data; stacks; page tables ("mapping", "l0", "page"); heap; anything
/// else.  Reclaimable cached regions likewise: init and thread stacks; the
/// device tree ("dtb"); the identity mapping; anything else.
pub proof fn law_region_colors(n: Seq<char>, m: Seq<char>)
    ensures
        spec_region_color(MemoryType::Device, RegionStatus::Used, n) == rgb(220, 80, 60),
        spec_region_color(MemoryType::Device, RegionStatus::Free, n) == rgb(180, 120, 90),
        spec_region_color(MemoryType::Device, RegionStatus::Drop, n) == rgb(200, 100, 80),
        spec_region_color(MemoryType::Cached, RegionStatus::Free, n) == rgb(60, 60, 70),
        ({
            let c = spec_region_color(MemoryType::Cached, RegionStatus::Used, n);
            let code = has_sub(n, "code"@);
            let ro = has_sub(n, "read-only"@) || has_sub(n, "rodata"@);
            let bss = has_sub(n, "bss"@);
            let data = has_sub(n, "data"@);
            let stack = has_sub(n, "stack"@);
            let tables = has_sub(n, "mapping"@) || has_sub(n, "l0"@) || has_sub(n, "page"@);
            let heap = has_sub(n, "heap"@);
            &&& code ==> c == rgb(70, 130, 220)
            &&& !code && ro ==> c == rgb(100, 180, 230)
            &&& !code && !ro && bss ==> c == rgb(120, 190, 120)
            &&& !code && !ro && !bss && data ==> c == rgb(80, 170, 80)
            &&& !code && !ro && !bss && !data && stack ==> c == rgb(230, 160, 50)
            &&& !code && !ro && !bss && !data && !stack && tables ==> c == rgb(160, 120, 210)
            &&& !code && !ro && !bss && !data && !stack && !tables && heap ==> c == rgb(220, 200, 60)
            &&& !code && !ro && !bss && !data && !stack && !tables && !heap ==> c == rgb(100, 160, 200)
        }),
        ({
            let c = spec_region_color(MemoryType::Cached, RegionStatus::Drop, m);
            let init = has_sub(m, "init"@) || has_sub(m, "thread"@);
            let dtb = has_sub(m, "dtb"@);
            let identity = has_sub(m, "identity"@);
            &&& init ==> c == rgb(140, 100, 60)
            &&& !init && dtb ==> c == rgb(170, 130, 90)
            &&& !init && !dtb && identity ==> c == rgb(120, 90, 70)
            &&& !init && !dtb && !identity ==> c == rgb(130, 110, 90)
        }),
{
}

/// Color for compressed gap markers.
pub fn gap_color() -> (c: Rgb)
    ensures
        c == rgb(40, 40, 50),
{
    make_rgb(40, 40, 50)
}

/// Status badge text.
pub fn status_label(s: RegionStatus) -> (t: &'static str)
    ensures
        t@ == status_name(s),
{
    match s {
        RegionStatus::Free => "Free",
        RegionStatus::Used => "Used",
        RegionStatus::Drop => "Drop",
    }
}

/// Status badge color.
pub fn status_color(s: RegionStatus) -> (c: Rgb)
    ensures
        c == (match s {
            RegionStatus::Free => rgb(80, 80, 90),
            RegionStatus::Used => rgb(60, 160, 60),
            RegionStatus::Drop => rgb(180, 140, 50),
        }),
{
    match s {
        RegionStatus::Free => make_rgb(80, 80, 90),
        RegionStatus::Used => make_rgb(60, 160, 60),
        RegionStatus::Drop => make_rgb(180, 140, 50),
    }
}

/// Memory type text for tooltips.
pub fn memory_type_label(t: MemoryType) -> (s: &'static str)
    ensures
        s@ == (match t {
            MemoryType::Cached => "Cached"@,
            MemoryType::Device => "Device"@,
        }),
{
    match t {
        MemoryType::Cached => "Cached",
        MemoryType::Device => "Device",
    }
}

/// The unit in which a byte count is shown.
#[derive(Debug, Clone, Copy, PartialEq, Eq, Structural)]
pub enum SizeUnit {
    Bytes,
    KiB,
    MiB,
    GiB,
}

/// The largest unit not above `bytes` (bytes below 1 KiB are shown exactly).
pub open spec fn spec_size_unit(bytes: u64) -> SizeUnit {
    if bytes >= 1024 * 1024 * 1024 {
        SizeUnit::GiB
    } else if bytes >= 1024 * 1024 {
        SizeUnit::MiB
    } else if bytes >= 1024 {
        SizeUnit::KiB
    } else {
        SizeUnit::Bytes
    }
}

/// The unit that a human-readable size of `bytes` uses.
pub fn size_unit(bytes: u64) -> (u: SizeUnit)
    ensures
        u == spec_size_unit(bytes),
{
    if bytes >= 1024 * 1024 * 1024 {
        SizeUnit::GiB
    } else if bytes >= 1024 * 1024 {
        SizeUnit::MiB
    } else if bytes >= 1024 {
        SizeUnit::KiB
    } else {
        SizeUnit::Bytes
    }
}

/// Each unit covers one range of sizes: bytes below 1 KiB, KiB below 1 MiB,
/// MiB below 1 GiB, GiB from 1 GiB on; so the number shown in the unit is at
/// least one and, but for GiB, below 1024.
pub proof fn law_size_unit_ranges(bytes: u64)
    ensures
        spec_size_unit(bytes) == SizeUnit::Bytes <==> bytes < 1024,
        spec_size_unit(bytes) == SizeUnit::KiB <==> 1024 <= bytes < 1024 * 1024,
        spec_size_unit(bytes) == SizeUnit::MiB <==> 1024 * 1024 <= bytes < 1024 * 1024 * 1024,
        spec_size_unit(bytes) == SizeUnit::GiB <==> 1024 * 1024 * 1024 <= bytes,
{
}

/// Hexadecimal digits of `n`, lower case, without leading zeros.
pub open spec fn hex_digits(n: nat) -> Seq<char>
    decreases n,
{
    if n < 16 {
        seq![hex_char(n as int)]
    } else {
        hex_digits(n / 16).push(hex_char((n % 16) as int))
    }
}

/// `s` with `0`s in front up to `width` characters.
pub open spec fn zero_pad(s: Seq<char>, width: nat) -> Seq<char> {
    if s.len() >= width {
        s
    } else {
        Seq::new((width - s.len()) as nat, |i: int| '0') + s
    }
}

/// `s` with `_` before every fourth character (counted from the left).
pub open spec fn group4(s: Seq<char>) -> Seq<char>
    decreases s.len(),
{
    if s.len() == 0 {
        s
    } else {
        let g = group4(s.drop_last());
        if s.len() - 1 > 0 && (s.len() - 1) % 4 == 0 {
            g.push('_').push(s.last())
        } else {
            g.push(s.last())
        }
    }
}

/// Grouping keeps the characters in order and adds only `_`: removing the
/// `_`s of `group4(p)` gives `p` back, and the first character stays first.
pub proof fn lemma_group4_parts(p: Seq<char>)
    requires
        forall|k: int| 0 <= k < p.len() ==> #[trigger] p[k] != '_',
    ensures
        crate::text::remove_char(group4(p), '_') == p,
        p.len() > 0 ==> group4(p).len() > 0 && group4(p)[0] == p[0],
    decreases p.len(),
{
    if p.len() > 0 {
        let q = p.drop_last();
        lemma_group4_parts(q);
        let g = group4(q);
        let x = p.last();
        if p.len() - 1 > 0 && (p.len() - 1) % 4 == 0 {
            let g1 = g.push('_');
            assert(g1.push(x).drop_last() == g1);
            assert(g1.drop_last() == g);
            assert(crate::text::remove_char(g1, '_') == crate::text::remove_char(g, '_'));
            assert(crate::text::remove_char(g1.push(x), '_') == crate::text::remove_char(g1, '_').push(x));
        } else {
            assert(g.push(x).drop_last() == g);
            assert(crate::text::remove_char(g.push(x), '_') == crate::text::remove_char(g, '_').push(x));
        }
        assert(q.push(x) == p);
        if q.len() > 0 {
            assert(p[0] == q[0]);
        }
    }
}

/// Grouping hexadecimal digits gives hexadecimal digits and `_`s, and ends
/// with the last digit.
pub proof fn lemma_group4_chars(p: Seq<char>)
    requires
        forall|k: int| 0 <= k < p.len() ==> crate::input::is_hex_digit(#[trigger] p[k]),
    ensures
        forall|k: int| 0 <= k < group4(p).len() ==> crate::input::is_hex_digit(#[trigger] group4(p)[k]) || group4(p)[k] == '_',
        p.len() > 0 ==> group4(p).len() > 0 && group4(p).last() == p.last(),
    decreases p.len(),
{
    if p.len() > 0 {
        let q = p.drop_last();
        lemma_group4_chars(q);
        let g = group4(q);
        let x = p.last();
        assert(crate::input::is_hex_digit(x));
        if p.len() - 1 > 0 && (p.len() - 1) % 4 == 0 {
            assert(group4(p) == g.push('_').push(x));
        } else {
            assert(group4(p) == g.push(x));
        }
    }
}

/// `0x`, then the address in lower-case hexadecimal, zero-padded to 12
/// digits, with `_` between groups of four digits.
pub open spec fn spec_format_addr(addr: u64) -> Seq<char> {
    "0x"@ + group4(zero_pad(hex_digits(addr as nat), 12))
}

fn push_hex_digits(out: &mut Vec<char>, n: u64)
    ensures
        final(out)@ == old(out)@ + hex_digits(n as nat),
    decreases n,
{
    if n >= 16 {
        push_hex_digits(out, n / 16);
    }
    out.push(hex_digit(n % 16));
}

/// Format an address as `0xNNNN_NNNN_NNNN`.
pub fn format_addr(addr: u64) -> (s: String)
    ensures
        s@ == spec_format_addr(addr),
{
    let mut digits: Vec<char> = Vec::new();
    push_hex_digits(&mut digits, addr);
    assert(digits@ == hex_digits(addr as nat));
    let mut hex: Vec<char> = Vec::new();
    let mut k: usize = digits.len();
    while k < 12
        invariant
            digits.len() <= k,
            k <= 12 || k == digits.len(),
            hex@ == Seq::new((k - digits.len()) as nat, |i: int| '0'),
        decreases 12 - k,
    {
        hex.push('0');
        assert(hex@ == Seq::new((k + 1 - digits.len()) as nat, |i: int| '0'));
        k = k + 1;
    }
    let ghost pad = hex@;
    let mut j: usize = 0;
    while j < digits.len()
        invariant
            j <= digits.len(),
            hex@ == pad + digits@.take(j as int),
        decreases digits.len() - j,
    {
        hex.push(digits[j]);
        assert(digits@.take(j + 1) == digits@.take(j as int).push(digits@[j as int]));
        j = j + 1;
    }
    assert(digits@.take(digits.len() as int) == digits@);
    assert(hex@ == zero_pad(hex_digits(addr as nat), 12));
    let mut grouped = String::new();
    let mut i: usize = 0;
    while i < hex.len()
        invariant
            i <= hex.len(),
            grouped@ == group4(hex@.take(i as int)),
        decreases hex.len() - i,
    {
        assert(hex@.take(i + 1).drop_last() == hex@.take(i as int));
        if i > 0 && i % 4 == 0 {
            push_char(&mut grouped, '_');
        }
        push_char(&mut grouped, hex[i]);
        i = i + 1;
    }
    assert(hex@.take(hex.len() as int) == hex@);
    let mut s = String::new();
    push_str(&mut s, "0x");
    push_str(&mut s, grouped.as_str());
    s
}

} // verus!
