//! Layout engine: turns a sorted list of `MemoryRegion`s into visual blocks
//! and wraps the blocks into rows.
//!
//! Address gaps larger than a threshold, and free regions larger than it,
//! become compressed gap markers; smaller gaps become thin free regions.
//! Pixel widths are assigned by the viewer.
use crate::input::{region_views, MemoryRegion, MemoryType, RegionSpec, RegionStatus};
use vstd::prelude::*;

verus! {

/// A visual block to be rendered in the map.
#[derive(Debug)]
pub enum VisualBlock {
    /// A real memory region.
    Region { region: MemoryRegion },
    /// A compressed gap marker.
    Gap { start: u64, end: u64 },
}

/// What a `VisualBlock` holds.
pub enum BlockSpec {
    Region(RegionSpec),
    Gap(u64, u64),
}

impl View for VisualBlock {
    type V = BlockSpec;

    open spec fn view(&self) -> BlockSpec {
        match self {
            VisualBlock::Region { region } => BlockSpec::Region(region@),
            VisualBlock::Gap { start, end } => BlockSpec::Gap(*start, *end),
        }
    }
}

impl Clone for VisualBlock {
    fn clone(&self) -> (r: Self)
        ensures
            r@ == self@,
    {
        match self {
            VisualBlock::Region { region } => VisualBlock::Region { region: region.clone() },
            VisualBlock::Gap { start, end } => VisualBlock::Gap { start: *start, end: *end },
        }
    }
}

pub open spec fn block_start(b: BlockSpec) -> u64 {
    match b {
        BlockSpec::Region(r) => r.start,
        BlockSpec::Gap(s, _) => s,
    }
}

pub open spec fn block_end(b: BlockSpec) -> u64 {
    match b {
        BlockSpec::Region(r) => r.end,
        BlockSpec::Gap(_, e) => e,
    }
}

pub open spec fn block_views(v: Seq<VisualBlock>) -> Seq<BlockSpec> {
    v.map_values(|b: VisualBlock| b@)
}

impl VisualBlock {
    pub fn start(&self) -> (s: u64)
        ensures
            s == block_start(self@),
    {
        match self {
            VisualBlock::Region { region } => region.start,
            VisualBlock::Gap { start, .. } => *start,
        }
    }

    pub fn end(&self) -> (e: u64)
        ensures
            e == block_end(self@),
    {
        match self {
            VisualBlock::Region { region } => region.end,
            VisualBlock::Gap { end, .. } => *end,
        }
    }
}

/// The thin free region that stands for a small gap.
pub open spec fn filler(start: u64, end: u64) -> RegionSpec {
    RegionSpec {
        start,
        end,
        status: RegionStatus::Free,
        mem_type: MemoryType::Cached,
        permissions: Seq::<char>::empty(),
        name: "(gap)"@,
    }
}

pub open spec fn region_size(r: RegionSpec) -> int {
    if r.end >= r.start {
        r.end - r.start
    } else {
        0
    }
}

/// Blocks for region `r` when the addresses up to `frontier` are covered:
/// first the gap before `r` (compressed when larger than `threshold`, else a
/// thin free region), then `r` itself (compressed when it is free and larger
/// than `threshold`).
pub open spec fn step_blocks(frontier: u64, r: RegionSpec, threshold: u64) -> Seq<BlockSpec> {
    let lead = if r.start > frontier {
        if r.start - frontier > threshold {
            seq![BlockSpec::Gap(frontier, r.start)]
        } else {
            seq![BlockSpec::Region(filler(frontier, r.start))]
        }
    } else {
        Seq::<BlockSpec>::empty()
    };
    let body = if r.status == RegionStatus::Free && region_size(r) > threshold {
        seq![BlockSpec::Gap(r.start, r.end)]
    } else {
        seq![BlockSpec::Region(r)]
    };
    lead + body
}

pub open spec fn next_frontier(frontier: u64, r: RegionSpec) -> u64 {
    if r.end > frontier {
        r.end
    } else {
        frontier
    }
}

/// Blocks for `rs` in order, starting with the addresses up to `frontier` covered.
pub open spec fn blocks_from(rs: Seq<RegionSpec>, frontier: u64, threshold: u64) -> Seq<BlockSpec>
    decreases rs.len(),
{
    if rs.len() == 0 {
        Seq::<BlockSpec>::empty()
    } else {
        step_blocks(frontier, rs[0], threshold) + blocks_from(
            rs.drop_first(),
            next_frontier(frontier, rs[0]),
            threshold,
        )
    }
}

/// The blocks of a region list: none for no regions, else the blocks from the
/// first region's start.
pub open spec fn spec_build_blocks(rs: Seq<RegionSpec>, threshold: u64) -> Seq<BlockSpec> {
    if rs.len() == 0 {
        Seq::<BlockSpec>::empty()
    } else {
        blocks_from(rs, rs[0].start, threshold)
    }
}

/// Build the flat list of blocks (regions + gaps) from the sorted region list;
/// gaps and free regions larger than `gap_threshold` bytes are compressed.
pub fn build_blocks(regions: &[MemoryRegion], gap_threshold: u64) -> (blocks: Vec<VisualBlock>)
    ensures
        block_views(blocks@) == spec_build_blocks(region_views(regions@), gap_threshold),
{
    let ghost rs = region_views(regions@);
    let mut entries: Vec<VisualBlock> = Vec::new();
    if regions.len() == 0 {
        return entries;
    }
    let mut frontier = regions[0].start;
    let mut i: usize = 0;
    assert(rs.skip(0) == rs);
    assert(block_views(entries@) + blocks_from(rs, frontier, gap_threshold) == blocks_from(rs, frontier, gap_threshold));
    let ghost f0 = frontier;
    while i < regions.len()
        invariant
            rs == region_views(regions@),
            f0 == regions@[0].start,
            i <= regions.len(),
            spec_build_blocks(rs, gap_threshold) == block_views(entries@) + blocks_from(rs.skip(i as int), frontier, gap_threshold),
        decreases regions.len() - i,
    {
        let region = &regions[i];
        let ghost before = block_views(entries@);
        assert(rs.skip(i as int).drop_first() == rs.skip(i + 1));
        assert(rs.skip(i as int)[0] == region@);
        if region.start > frontier {
            let gap_size = region.start - frontier;
            if gap_size > gap_threshold {
                entries.push(VisualBlock::Gap { start: frontier, end: region.start });
            } else {
                let name = String::from_str("(gap)");
                entries.push(
                    VisualBlock::Region {
                        region: MemoryRegion {
                            start: frontier,
                            end: region.start,
                            status: RegionStatus::Free,
                            mem_type: MemoryType::Cached,
                            permissions: String::new(),
                            name,
                        },
                    },
                );
            }
        }
        let size = region.size();
        if region.status == RegionStatus::Free && size > gap_threshold {
            entries.push(VisualBlock::Gap { start: region.start, end: region.end });
        } else {
            entries.push(VisualBlock::Region { region: region.clone() });
        }
        assert(block_views(entries@) == before + step_blocks(frontier, region@, gap_threshold));
        if region.end > frontier {
            frontier = region.end;
        }
        i = i + 1;
    }
    assert(rs.skip(i as int).len() == 0);
    assert(block_views(entries@) + Seq::<BlockSpec>::empty() == block_views(entries@));
    entries
}

/// The rows of `s`, `t` items each (the last one may be shorter).
pub open spec fn rows_of<T>(s: Seq<T>, t: nat) -> Seq<Seq<T>>
    decreases s.len(),
{
    if s.len() == 0 {
        Seq::<Seq<T>>::empty()
    } else if t == 0 || s.len() <= t {
        seq![s]
    } else {
        seq![s.take(t as int)] + rows_of(s.skip(t as int), t)
    }
}

/// Blocks per row: the preferred count, but no more than fit, and at least one.
pub open spec fn row_target(preferred: usize, fit: usize) -> nat {
    let m = if preferred < fit {
        preferred
    } else {
        fit
    };
    if m < 1 {
        1
    } else {
        m as nat
    }
}

/// A row holds at least one block, and when both limits allow one, as many
/// as the smaller of the preferred count and the count that fits.
pub proof fn law_row_target_bounds(preferred: usize, fit: usize)
    ensures
        row_target(preferred, fit) >= 1,
        preferred >= 1 && fit >= 1 ==> row_target(preferred, fit) <= preferred && row_target(preferred, fit) <= fit
            && (row_target(preferred, fit) == preferred || row_target(preferred, fit) == fit),
{
}

pub open spec fn row_views(rows: Seq<Vec<VisualBlock>>) -> Seq<Seq<BlockSpec>> {
    rows.map_values(|r: Vec<VisualBlock>| block_views(r@))
}

/// Wrap blocks into rows of `row_target(target_blocks_per_row, max_blocks_per_row)`
/// blocks each, in order; the last row holds the rest.
pub fn wrap_rows(blocks: &Vec<VisualBlock>, target_blocks_per_row: usize, max_blocks_per_row: usize) -> (rows: Vec<Vec<VisualBlock>>)
    ensures
        row_views(rows@) == rows_of(block_views(blocks@), row_target(target_blocks_per_row, max_blocks_per_row)),
{
    let m = if target_blocks_per_row < max_blocks_per_row {
        target_blocks_per_row
    } else {
        max_blocks_per_row
    };
    let target = if m < 1 {
        1
    } else {
        m
    };
    let ghost s = block_views(blocks@);
    let n = blocks.len();
    let mut rows: Vec<Vec<VisualBlock>> = Vec::new();
    let mut c: usize = 0;
    assert(s.skip(0) == s);
    assert(row_views(rows@) + rows_of(s, target as nat) == rows_of(s, target as nat));
    while c < n
        invariant
            s == block_views(blocks@),
            n == blocks.len(),
            target >= 1,
            target as nat == row_target(target_blocks_per_row, max_blocks_per_row),
            c <= n,
            rows_of(s, target as nat) == row_views(rows@) + rows_of(s.skip(c as int), target as nat),
        decreases n - c,
    {
        let e = if n - c > target {
            c + target
        } else {
            n
        };
        let mut row: Vec<VisualBlock> = Vec::new();
        let mut k = c;
        while k < e
            invariant
                s == block_views(blocks@),
                c <= k <= e <= n,
                n == blocks.len(),
                block_views(row@) == s.subrange(c as int, k as int),
            decreases e - k,
        {
            row.push(blocks[k].clone());
            assert(s.subrange(c as int, k + 1) == s.subrange(c as int, k as int).push(s[k as int]));
            k = k + 1;
        }
        let ghost rest = s.skip(c as int);
        let ghost before = row_views(rows@);
        rows.push(row);
        assert(row_views(rows@) == before.push(s.subrange(c as int, e as int)));
        if e < n {
            assert(rest.take(target as int) == s.subrange(c as int, e as int));
            assert(rest.skip(target as int) == s.skip(e as int));
        } else {
            assert(rest == s.subrange(c as int, e as int));
            assert(s.skip(e as int).len() == 0);
        }
        c = e;
    }
    assert(s.skip(c as int).len() == 0);
    assert(row_views(rows@) + Seq::<Seq<BlockSpec>>::empty() == row_views(rows@));
    rows
}


/// Regions in address order that do not overlap, each ending at or after its start.
pub open spec fn ordered_apart(rs: Seq<RegionSpec>) -> bool {
    &&& forall|i: int| 0 <= i < rs.len() ==> #[trigger] rs[i].start <= rs[i].end
    &&& forall|i: int| 0 <= i < rs.len() - 1 ==> #[trigger] rs[i].end <= rs[i + 1].start
}

/// Each block ends where the next one starts.
pub open spec fn contiguous(bs: Seq<BlockSpec>) -> bool {
    forall|k: int| 0 <= k < bs.len() - 1 ==> block_end(#[trigger] bs[k]) == block_start(bs[k + 1])
}

proof fn lemma_contiguous_concat(a: Seq<BlockSpec>, b: Seq<BlockSpec>)
    requires
        a.len() > 0,
        b.len() > 0,
        contiguous(a),
        contiguous(b),
        block_end(a.last()) == block_start(b[0]),
    ensures
        contiguous(a + b),
{
    let c = a + b;
    assert forall|k: int| 0 <= k < c.len() - 1 implies block_end(#[trigger] c[k]) == block_start(c[k + 1]) by {
        if k < a.len() - 1 {
            assert(c[k] == a[k] && c[k + 1] == a[k + 1]);
        } else if k == a.len() - 1 {
            assert(c[k] == a.last() && c[k + 1] == b[0]);
        } else {
            assert(c[k] == b[k - a.len()] && c[k + 1] == b[k - a.len() + 1]);
        }
    }
}

proof fn lemma_blocks_from_contiguous(rs: Seq<RegionSpec>, frontier: u64, threshold: u64)
    requires
        rs.len() > 0,
        ordered_apart(rs),
        frontier <= rs[0].start,
    ensures
        blocks_from(rs, frontier, threshold).len() > 0,
        block_start(blocks_from(rs, frontier, threshold)[0]) == frontier,
        block_end(blocks_from(rs, frontier, threshold).last()) == rs.last().end,
        contiguous(blocks_from(rs, frontier, threshold)),
    decreases rs.len(),
{
    let r = rs[0];
    assert(r.start <= r.end);
    let step = step_blocks(frontier, r, threshold);
    assert(step.len() > 0);
    assert(block_start(step[0]) == frontier);
    assert(block_end(step.last()) == r.end);
    assert(contiguous(step));
    let rest = rs.drop_first();
    if rest.len() == 0 {
        assert(blocks_from(rest, next_frontier(frontier, r), threshold) == Seq::<BlockSpec>::empty());
        assert(blocks_from(rs, frontier, threshold) == step);
    } else {
        assert(rs[0].end <= rs[1].start);
        assert(next_frontier(frontier, r) == r.end);
        assert(ordered_apart(rest)) by {
            assert forall|i: int| 0 <= i < rest.len() implies #[trigger] rest[i].start <= rest[i].end by {
                assert(rest[i] == rs[i + 1]);
            }
            assert forall|i: int| 0 <= i < rest.len() - 1 implies #[trigger] rest[i].end <= rest[i + 1].start by {
                assert(rest[i] == rs[i + 1] && rest[i + 1] == rs[i + 2]);
            }
        }
        lemma_blocks_from_contiguous(rest, r.end, threshold);
        let tail = blocks_from(rest, r.end, threshold);
        lemma_contiguous_concat(step, tail);
        assert((step + tail).last() == tail.last());
        assert(rest.last() == rs.last());
    }
}

/// For regions in address order that do not overlap, the blocks meet end to
/// start: each block ends where the next one starts, from the first start to
/// the last end.
pub proof fn law_blocks_meet_when_apart(rs: Seq<RegionSpec>, threshold: u64)
    requires
        rs.len() > 0,
        ordered_apart(rs),
    ensures
        ({
            let bs = spec_build_blocks(rs, threshold);
            &&& bs.len() > 0
            &&& block_start(bs[0]) == rs[0].start
            &&& block_end(bs.last()) == rs.last().end
            &&& contiguous(bs)
        }),
{
    lemma_blocks_from_contiguous(rs, rs[0].start, threshold);
}

/// Regions ordered by start, each ending at or after its start; they may overlap.
pub open spec fn in_start_order(rs: Seq<RegionSpec>) -> bool {
    &&& forall|i: int| 0 <= i < rs.len() ==> #[trigger] rs[i].start <= rs[i].end
    &&& forall|i: int, j: int| #![trigger rs[i], rs[j]] 0 <= i < j < rs.len() ==> rs[i].start <= rs[j].start
}

/// The largest end of the regions (0 for none).
pub open spec fn largest_end(rs: Seq<RegionSpec>) -> u64
    decreases rs.len(),
{
    if rs.len() == 0 {
        0
    } else {
        let m = largest_end(rs.drop_first());
        if rs[0].end > m {
            rs[0].end
        } else {
            m
        }
    }
}

/// Some block holds the address `a`.
pub open spec fn covered(bs: Seq<BlockSpec>, a: int) -> bool {
    exists|k: int| 0 <= k < bs.len() && block_start(#[trigger] bs[k]) <= a < block_end(bs[k])
}

spec fn larger(a: u64, b: u64) -> u64 {
    if a > b {
        a
    } else {
        b
    }
}

spec fn smaller(a: u64, b: u64) -> u64 {
    if a < b {
        a
    } else {
        b
    }
}

proof fn lemma_blocks_from_span(rs: Seq<RegionSpec>, f: u64, th: u64)
    requires
        in_start_order(rs),
    ensures
        ({
            let bs = blocks_from(rs, f, th);
            let m = larger(f, largest_end(rs));
            &&& forall|k: int| 0 <= k < bs.len() ==> block_start(#[trigger] bs[k]) <= block_end(bs[k]) <= m
            &&& rs.len() > 0 ==> bs.len() > 0 && block_start(bs[0]) == smaller(f, rs[0].start)
            &&& rs.len() > 0 ==> forall|k: int| 0 <= k < bs.len() ==> smaller(f, rs[0].start) <= block_start(#[trigger] bs[k])
            &&& forall|i: int, j: int| #![trigger bs[i], bs[j]] 0 <= i < j < bs.len() ==> block_start(bs[i]) <= block_start(bs[j])
            &&& forall|a: int| f <= a < m ==> #[trigger] covered(bs, a)
            &&& rs.len() > 0 ==> exists|k: int| 0 <= k < bs.len() && block_end(#[trigger] bs[k]) == largest_end(rs)
        }),
    decreases rs.len(),
{
    let bs = blocks_from(rs, f, th);
    let m = larger(f, largest_end(rs));
    if rs.len() == 0 {
        assert(bs.len() == 0);
        assert forall|a: int| f <= a < m implies #[trigger] covered(bs, a) by {}
    } else {
        let r = rs[0];
        let rest = rs.drop_first();
        let f2 = next_frontier(f, r);
        let step = step_blocks(f, r, th);
        let tail = blocks_from(rest, f2, th);
        assert(in_start_order(rest)) by {
            assert forall|i: int| 0 <= i < rest.len() implies #[trigger] rest[i].start <= rest[i].end by {
                assert(rest[i] == rs[i + 1]);
            }
            assert forall|i: int, j: int| #![trigger rest[i], rest[j]] 0 <= i < j < rest.len() implies rest[i].start <= rest[j].start by {
                assert(rest[i] == rs[i + 1] && rest[j] == rs[j + 1]);
            }
        }
        lemma_blocks_from_span(rest, f2, th);
        assert(bs == step + tail);
        assert(r.start <= r.end);
        let n = step.len();
        let body = step[n - 1];
        assert(block_start(body) == r.start && block_end(body) == r.end);
        assert(n == 1 || (n == 2 && block_start(step[0]) == f && block_end(step[0]) == r.start && f < r.start));
        assert(n == 1 ==> r.start <= f);
        if rest.len() > 0 {
            assert(rest[0] == rs[1]);
            assert(rs[0].start <= rs[1].start);
        }
        assert forall|k: int| 0 <= k < bs.len() implies block_start(#[trigger] bs[k]) <= block_end(bs[k]) <= m by {
            if k < n {
                assert(bs[k] == step[k]);
            } else {
                assert(bs[k] == tail[k - n]);
            }
        }
        assert(bs[0] == step[0]);
        assert forall|k: int| 0 <= k < bs.len() implies smaller(f, rs[0].start) <= block_start(#[trigger] bs[k]) by {
            if k < n {
                assert(bs[k] == step[k]);
            } else {
                assert(bs[k] == tail[k - n]);
            }
        }
        assert forall|i: int, j: int| #![trigger bs[i], bs[j]] 0 <= i < j < bs.len() implies block_start(bs[i]) <= block_start(bs[j]) by {
            if j < n {
                assert(bs[i] == step[i] && bs[j] == step[j]);
            } else if i < n {
                assert(bs[i] == step[i] && bs[j] == tail[j - n]);
            } else {
                assert(bs[i] == tail[i - n] && bs[j] == tail[j - n]);
            }
        }
        assert forall|a: int| f <= a < m implies #[trigger] covered(bs, a) by {
            if a < f2 {
                if r.start > f && a < r.start {
                    assert(block_start(bs[0]) <= a < block_end(bs[0]));
                } else {
                    assert(bs[n - 1] == body);
                    assert(block_start(bs[n - 1]) <= a < block_end(bs[n - 1]));
                }
            } else {
                assert(covered(tail, a));
                let k = choose|k: int| 0 <= k < tail.len() && block_start(#[trigger] tail[k]) <= a < block_end(tail[k]);
                assert(bs[k + n] == tail[k]);
                assert(block_start(bs[k + n]) <= a < block_end(bs[k + n]));
            }
        }
        if r.end >= largest_end(rest) {
            assert(bs[n - 1] == body);
            assert(block_end(bs[n - 1]) == largest_end(rs));
        } else {
            let k = choose|k: int| 0 <= k < tail.len() && block_end(#[trigger] tail[k]) == largest_end(rest);
            assert(bs[k + n] == tail[k]);
            assert(block_end(bs[k + n]) == largest_end(rs));
        }
    }
}

/// For regions ordered by start, each ending at or after its start (overlaps
/// allowed), the blocks cover exactly the span from the first start to the
/// largest end: every block lies inside it, block starts never decrease, the
/// first block starts at the first region's start, some block ends at the
/// largest end, and every address of the span lies in some block.
pub proof fn law_blocks_cover_span(rs: Seq<RegionSpec>, threshold: u64)
    requires
        rs.len() > 0,
        in_start_order(rs),
    ensures
        ({
            let bs = spec_build_blocks(rs, threshold);
            &&& bs.len() > 0
            &&& block_start(bs[0]) == rs[0].start
            &&& forall|k: int| 0 <= k < bs.len() ==> rs[0].start <= block_start(#[trigger] bs[k]) <= block_end(bs[k]) <= largest_end(rs)
            &&& forall|i: int, j: int| #![trigger bs[i], bs[j]] 0 <= i < j < bs.len() ==> block_start(bs[i]) <= block_start(bs[j])
            &&& exists|k: int| 0 <= k < bs.len() && block_end(#[trigger] bs[k]) == largest_end(rs)
            &&& forall|a: int| rs[0].start <= a < largest_end(rs) ==> #[trigger] covered(bs, a)
        }),
{
    assert(rs[0].start <= rs[0].end);
    assert(largest_end(rs) >= rs[0].end);
    lemma_blocks_from_span(rs, rs[0].start, threshold);
}

proof fn lemma_regions_have_blocks(rs: Seq<RegionSpec>, f: u64, th: u64)
    ensures
        forall|i: int| 0 <= i < rs.len() ==> {
            let r = #[trigger] rs[i];
            &&& (r.status != RegionStatus::Free || r.end - r.start <= th) ==> blocks_from(rs, f, th).contains(BlockSpec::Region(r))
            &&& (r.status == RegionStatus::Free && r.end - r.start > th) ==> blocks_from(rs, f, th).contains(BlockSpec::Gap(r.start, r.end))
        },
    decreases rs.len(),
{
    if rs.len() > 0 {
        let r0 = rs[0];
        let rest = rs.drop_first();
        let f2 = next_frontier(f, r0);
        let step = step_blocks(f, r0, th);
        let tail = blocks_from(rest, f2, th);
        let bs = blocks_from(rs, f, th);
        lemma_regions_have_blocks(rest, f2, th);
        assert(bs == step + tail);
        let n = step.len();
        assert forall|i: int| 0 <= i < rs.len() implies {
            let r = #[trigger] rs[i];
            &&& (r.status != RegionStatus::Free || r.end - r.start <= th) ==> bs.contains(BlockSpec::Region(r))
            &&& (r.status == RegionStatus::Free && r.end - r.start > th) ==> bs.contains(BlockSpec::Gap(r.start, r.end))
        } by {
            if i == 0 {
                assert(bs[n - 1] == step[n - 1]);
            } else {
                let r = rs[i];
                assert(rest[i - 1] == r);
                if r.status != RegionStatus::Free || r.end - r.start <= th {
                    let b = BlockSpec::Region(r);
                    assert(tail.contains(b));
                    let k = choose|k: int| 0 <= k < tail.len() && tail[k] == b;
                    assert(bs[k + n] == tail[k]);
                } else {
                    let b = BlockSpec::Gap(r.start, r.end);
                    assert(tail.contains(b));
                    let k = choose|k: int| 0 <= k < tail.len() && tail[k] == b;
                    assert(bs[k + n] == tail[k]);
                }
            }
        }
    }
}

/// Every region gets a block of its own: the region itself, unless it is
/// free and more than `threshold` bytes long; a free region that long gets a
/// compressed gap marker over its span instead.  So used and reclaimable
/// regions are always drawn as themselves, whatever their size.
pub proof fn law_every_region_has_its_block(rs: Seq<RegionSpec>, threshold: u64)
    ensures
        forall|i: int| 0 <= i < rs.len() && (#[trigger] rs[i]).status != RegionStatus::Free
            ==> spec_build_blocks(rs, threshold).contains(BlockSpec::Region(rs[i])),
        forall|i: int| 0 <= i < rs.len() && (#[trigger] rs[i]).status == RegionStatus::Free && rs[i].end - rs[i].start <= threshold
            ==> spec_build_blocks(rs, threshold).contains(BlockSpec::Region(rs[i])),
        forall|i: int| 0 <= i < rs.len() && (#[trigger] rs[i]).status == RegionStatus::Free && rs[i].end - rs[i].start > threshold
            ==> spec_build_blocks(rs, threshold).contains(BlockSpec::Gap(rs[i].start, rs[i].end)),
{
    if rs.len() > 0 {
        lemma_regions_have_blocks(rs, rs[0].start, threshold);
    }
}

/// No region of `rs` holds an address of `a..b`.
pub open spec fn hole(rs: Seq<RegionSpec>, a: int, b: int) -> bool {
    forall|i: int| 0 <= i < rs.len() ==> (#[trigger] rs[i]).end <= a || rs[i].start >= b
}

/// Where a block comes from: a region drawn as itself (any region but a free
/// one longer than `threshold`); a free region longer than `threshold`,
/// drawn as a gap marker over its span; or a hole between regions, drawn as
/// a gap marker when longer than `threshold`, else as a thin free region.
pub open spec fn accounted_for(rs: Seq<RegionSpec>, threshold: u64, b: BlockSpec) -> bool {
    ||| exists|i: int| 0 <= i < rs.len() && b == BlockSpec::Region(#[trigger] rs[i])
        && !(rs[i].status == RegionStatus::Free && rs[i].end - rs[i].start > threshold)
    ||| exists|i: int| 0 <= i < rs.len() && b == BlockSpec::Gap((#[trigger] rs[i]).start, rs[i].end)
        && rs[i].status == RegionStatus::Free && rs[i].end - rs[i].start > threshold
    ||| (b matches BlockSpec::Gap(s, e) && e - s > threshold && hole(rs, s as int, e as int))
    ||| (b matches BlockSpec::Region(f) && f == filler(f.start, f.end) && 0 < f.end - f.start <= threshold
        && hole(rs, f.start as int, f.end as int))
}

proof fn lemma_blocks_accounted(all: Seq<RegionSpec>, j: int, f: u64, th: u64)
    requires
        in_start_order(all),
        0 <= j <= all.len(),
        forall|i: int| 0 <= i < j ==> (#[trigger] all[i]).end <= f,
    ensures
        forall|k: int| 0 <= k < blocks_from(all.skip(j), f, th).len()
            ==> accounted_for(all, th, #[trigger] blocks_from(all.skip(j), f, th)[k]),
    decreases all.len() - j,
{
    let rs = all.skip(j);
    let bs = blocks_from(rs, f, th);
    if j < all.len() {
        let r = all[j];
        assert(rs[0] == r);
        assert(rs.drop_first() == all.skip(j + 1));
        let f2 = next_frontier(f, r);
        let step = step_blocks(f, r, th);
        let tail = blocks_from(all.skip(j + 1), f2, th);
        lemma_blocks_accounted(all, j + 1, f2, th);
        assert(bs == step + tail);
        assert(r.start <= r.end);
        let n = step.len();
        assert forall|k: int| 0 <= k < bs.len() implies accounted_for(all, th, #[trigger] bs[k]) by {
            if k >= n {
                assert(bs[k] == tail[k - n]);
            } else if k == n - 1 {
                assert(bs[k] == step[k]);
                assert(all[j] == r);
            } else {
                assert(bs[k] == step[k]);
                assert(k == 0 && r.start > f);
                assert(hole(all, f as int, r.start as int)) by {
                    assert forall|i: int| 0 <= i < all.len() implies (#[trigger] all[i]).end <= f || all[i].start >= r.start by {
                        if i > j {
                            assert(all[j].start <= all[i].start);
                        }
                    }
                }
            }
        }
    }
}

/// Every block of the layout is accounted for by the regions (see
/// `accounted_for`): no block is made up, a gap marker stands only for a
/// large free region or a large hole, and a thin free region only for a
/// small hole.
pub proof fn law_blocks_accounted_for(rs: Seq<RegionSpec>, threshold: u64)
    requires
        in_start_order(rs),
    ensures
        forall|k: int| 0 <= k < spec_build_blocks(rs, threshold).len()
            ==> accounted_for(rs, threshold, #[trigger] spec_build_blocks(rs, threshold)[k]),
{
    if rs.len() > 0 {
        assert(rs.skip(0) == rs);
        lemma_blocks_accounted(rs, 0, rs[0].start, threshold);
    }
}

/// The items of `rows`, row after row.
pub open spec fn concat_rows<T>(rows: Seq<Seq<T>>) -> Seq<T>
    decreases rows.len(),
{
    if rows.len() == 0 {
        Seq::<T>::empty()
    } else {
        rows[0] + concat_rows(rows.drop_first())
    }
}

/// Wrapping into rows keeps every block, in order, and makes every row
/// but the last exactly `t` blocks long, the last one between 1 and `t`.
pub proof fn law_rows_keep_blocks<T>(s: Seq<T>, t: nat)
    requires
        t >= 1,
    ensures
        concat_rows(rows_of(s, t)) == s,
        forall|i: int| 0 <= i < rows_of(s, t).len() - 1 ==> (#[trigger] rows_of(s, t)[i]).len() == t,
        rows_of(s, t).len() > 0 ==> 1 <= rows_of(s, t).last().len() <= t,
    decreases s.len(),
{
    assert(concat_rows(Seq::<Seq<T>>::empty()) == Seq::<T>::empty());
    if s.len() == 0 {
        assert(s == Seq::<T>::empty());
        assert(rows_of(s, t) == Seq::<Seq<T>>::empty());
    } else if s.len() <= t {
        let r = rows_of(s, t);
        assert(r == seq![s]);
        assert(r[0] == s);
        assert(concat_rows(r) == r[0] + concat_rows(r.drop_first()));
        assert(r.drop_first() == Seq::<Seq<T>>::empty());
        assert(s + Seq::<T>::empty() == s);
    } else {
        let rest = s.skip(t as int);
        law_rows_keep_blocks(rest, t);
        let r = rows_of(s, t);
        let rr = rows_of(rest, t);
        assert(r == seq![s.take(t as int)] + rr);
        assert(r.drop_first() == rr);
        assert(s.take(t as int) + rest == s);
        assert(r[0] == s.take(t as int));
        assert(concat_rows(r) == r[0] + concat_rows(r.drop_first()));
        assert forall|i: int| 0 <= i < r.len() - 1 implies (#[trigger] r[i]).len() == t by {
            if i > 0 {
                assert(r[i] == rr[i - 1]);
            }
        }
        if rr.len() > 0 {
            assert(r.last() == rr.last());
        }
    }
}

} // verus!
