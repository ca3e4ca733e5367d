//! Decisions of the map viewer: which regions are shown, how the cells of
//! the Hilbert grid are shared out between the blocks of the layout, which
//! cell borders are outlined, and label text.
use crate::hilbert::{area, d2xy, side, spec_d2xy, spec_xy2d, xy2d};
use crate::input::{region_views, MemoryRegion, RegionSpec, RegionStatus};
use crate::text::{chars_of, range_eq};
use vstd::arithmetic::power2::lemma2_to64;
use vstd::prelude::*;
use vstd::string::StringSliceAdditionalSpecFns;

verus! {

// ── Region filtering and lookup ─────────────────────────────────────────────

/// A region is shown unless it is reclaimable and those are hidden, or free
/// and those are hidden.
pub open spec fn is_shown(r: RegionSpec, show_drop: bool, show_free: bool) -> bool {
    !(!show_drop && r.status == RegionStatus::Drop) && !(!show_free && r.status == RegionStatus::Free)
}

/// The shown regions of `rs`, in order.
pub open spec fn shown_regions(rs: Seq<RegionSpec>, show_drop: bool, show_free: bool) -> Seq<RegionSpec>
    decreases rs.len(),
{
    if rs.len() == 0 {
        rs
    } else {
        let f = shown_regions(rs.drop_last(), show_drop, show_free);
        if is_shown(rs.last(), show_drop, show_free) {
            f.push(rs.last())
        } else {
            f
        }
    }
}

/// The regions to draw, given which statuses are shown.
pub fn filter_regions(regions: &[MemoryRegion], show_drop: bool, show_free: bool) -> (out: Vec<MemoryRegion>)
    ensures
        region_views(out@) == shown_regions(region_views(regions@), show_drop, show_free),
{
    let ghost rs = region_views(regions@);
    let mut out: Vec<MemoryRegion> = Vec::new();
    let mut i: usize = 0;
    assert(rs.take(0) == Seq::<RegionSpec>::empty());
    while i < regions.len()
        invariant
            rs == region_views(regions@),
            i <= regions.len(),
            region_views(out@) == shown_regions(rs.take(i as int), show_drop, show_free),
        decreases regions.len() - i,
    {
        let r = &regions[i];
        assert(rs.take(i + 1).drop_last() == rs.take(i as int));
        assert(rs.take(i + 1).last() == r@);
        let hide = (!show_drop && r.status == RegionStatus::Drop) || (!show_free && r.status == RegionStatus::Free);
        if !hide {
            let ghost before = region_views(out@);
            out.push(r.clone());
            assert(region_views(out@) == before.push(r@));
        }
        i = i + 1;
    }
    assert(rs.take(i as int) == rs);
    out
}

proof fn lemma_shown_members(rs: Seq<RegionSpec>, show_drop: bool, show_free: bool)
    ensures
        forall|r: RegionSpec| #[trigger] shown_regions(rs, show_drop, show_free).contains(r)
            <==> rs.contains(r) && is_shown(r, show_drop, show_free),
    decreases rs.len(),
{
    if rs.len() > 0 {
        let q = rs.drop_last();
        lemma_shown_members(q, show_drop, show_free);
        let f = shown_regions(q, show_drop, show_free);
        let g = shown_regions(rs, show_drop, show_free);
        assert(is_shown(rs.last(), show_drop, show_free) ==> g == f.push(rs.last()));
        assert(!is_shown(rs.last(), show_drop, show_free) ==> g == f);
        assert forall|r: RegionSpec| #[trigger] g.contains(r) <==> rs.contains(r) && is_shown(r, show_drop, show_free) by {
            if g.contains(r) {
                let k = choose|k: int| 0 <= k < g.len() && g[k] == r;
                if k < f.len() {
                    assert(f[k] == r);
                    assert(f.contains(r));
                    let j = choose|j: int| 0 <= j < q.len() && q[j] == r;
                    assert(rs[j] == r);
                } else {
                    assert(rs[rs.len() - 1] == r);
                }
            }
            if rs.contains(r) && is_shown(r, show_drop, show_free) {
                let j = choose|j: int| 0 <= j < rs.len() && rs[j] == r;
                if j < rs.len() - 1 {
                    assert(q[j] == r);
                    assert(q.contains(r));
                    assert(f.contains(r));
                    let k = choose|k: int| 0 <= k < f.len() && f[k] == r;
                    assert(g[k] == r);
                } else {
                    assert(g[g.len() - 1] == r);
                }
            }
        }
    }
}

/// The filter goes by status alone: used regions are always shown,
/// reclaimable ones exactly when `show_drop` is set, free ones exactly when
/// `show_free` is set; and only regions of the list are shown.
pub proof fn law_filter_by_status(rs: Seq<RegionSpec>, show_drop: bool, show_free: bool)
    ensures
        forall|i: int| 0 <= i < rs.len() && (#[trigger] rs[i]).status == RegionStatus::Used
            ==> shown_regions(rs, show_drop, show_free).contains(rs[i]),
        forall|i: int| 0 <= i < rs.len() && (#[trigger] rs[i]).status == RegionStatus::Drop
            ==> (shown_regions(rs, show_drop, show_free).contains(rs[i]) <==> show_drop),
        forall|i: int| 0 <= i < rs.len() && (#[trigger] rs[i]).status == RegionStatus::Free
            ==> (shown_regions(rs, show_drop, show_free).contains(rs[i]) <==> show_free),
        forall|r: RegionSpec| #[trigger] shown_regions(rs, show_drop, show_free).contains(r) ==> rs.contains(r),
{
    lemma_shown_members(rs, show_drop, show_free);
    assert forall|i: int| 0 <= i < rs.len() implies #[trigger] rs.contains(rs[i]) by {}
}

/// Region `r` has the given start, end and name.
pub open spec fn same_region(r: RegionSpec, start: u64, end: u64, name: Seq<char>) -> bool {
    r.start == start && r.end == end && r.name == name
}

/// Position of the first region with the given start, end and name.
pub fn find_region(regions: &[MemoryRegion], start: u64, end: u64, name: &str) -> (r: Option<usize>)
    ensures
        match r {
            Some(i) => i < regions.len() && same_region(regions@[i as int]@, start, end, name@)
                && forall|j: int| 0 <= j < i ==> !same_region(#[trigger] regions@[j]@, start, end, name@),
            None => forall|j: int| 0 <= j < regions.len() ==> !same_region(#[trigger] regions@[j]@, start, end, name@),
        },
{
    let mut i: usize = 0;
    while i < regions.len()
        invariant
            i <= regions.len(),
            forall|j: int| 0 <= j < i ==> !same_region(#[trigger] regions@[j]@, start, end, name@),
        decreases regions.len() - i,
    {
        let r = &regions[i];
        if r.start == start && r.end == end {
            let cs = chars_of(r.name.as_str());
            if range_eq(&cs, 0, cs.len(), name) {
                assert(cs@.subrange(0, cs.len() as int) == cs@);
                return Some(i);
            }
            assert(cs@.subrange(0, cs.len() as int) == cs@);
        }
        i = i + 1;
    }
    None
}

/// Find the index in the full (unfiltered) region list of a filtered region.
pub fn filtered_to_original(regions: &[MemoryRegion], filtered: &[MemoryRegion], filtered_idx: usize) -> (r: Option<usize>)
    ensures
        filtered_idx >= filtered.len() ==> r is None,
        filtered_idx < filtered.len() ==> ({
            let f = filtered@[filtered_idx as int]@;
            match r {
                Some(i) => i < regions.len() && same_region(regions@[i as int]@, f.start, f.end, f.name)
                    && forall|j: int| 0 <= j < i ==> !same_region(#[trigger] regions@[j]@, f.start, f.end, f.name),
                None => forall|j: int| 0 <= j < regions.len() ==> !same_region(#[trigger] regions@[j]@, f.start, f.end, f.name),
            }
        }),
{
    if filtered_idx >= filtered.len() {
        return None;
    }
    let fr = &filtered[filtered_idx];
    find_region(regions, fr.start, fr.end, fr.name.as_str())
}


// ── Sharing out the cells of the Hilbert grid ──────────────────────────────

/// A cell in the Hilbert curve grid, representing one "quantum" of the
/// linearized (gap-compressed) address space.
#[derive(Debug, Clone, Copy, PartialEq, Eq, Structural)]
pub struct HilbertCell {
    /// Index into the filtered region list.
    pub region_idx: usize,
    /// Whether this cell is a gap marker.
    pub is_gap: bool,
}

/// How many cells of the grid a block of the layout gets.
#[derive(Debug, Clone, Copy, PartialEq, Eq, Structural)]
pub struct BlockAlloc {
    /// Index into the filtered region list (0 for gaps).
    pub region_idx: usize,
    pub is_gap: bool,
    pub cell_count: u32,
}

/// Sum of the cell counts.
pub open spec fn count_sum(s: Seq<BlockAlloc>) -> int
    decreases s.len(),
{
    if s.len() == 0 {
        0
    } else {
        count_sum(s.drop_last()) + s.last().cell_count
    }
}

pub open spec fn with_count(a: BlockAlloc, c: u32) -> BlockAlloc {
    BlockAlloc { region_idx: a.region_idx, is_gap: a.is_gap, cell_count: c }
}

/// Every block gets at least one cell, so that nothing disappears.
pub open spec fn at_least_one(s: Seq<BlockAlloc>) -> Seq<BlockAlloc> {
    s.map_values(|a: BlockAlloc| with_count(a, if a.cell_count < 1 { 1 } else { a.cell_count }))
}

/// Position of the largest count; the last one among equals.
pub open spec fn largest_index(s: Seq<BlockAlloc>) -> int
    decreases s.len(),
{
    if s.len() <= 1 {
        0
    } else {
        let k = largest_index(s.drop_last());
        if s.last().cell_count >= s[k].cell_count {
            s.len() - 1
        } else {
            k
        }
    }
}

/// The counts after fitting: every count at least one, then the largest
/// count (the last of equals) takes up the difference to `total`; when the
/// counts exceed `total` by as much as the largest count or more, they stay.
pub open spec fn spec_fit(s: Seq<BlockAlloc>, total: u32) -> Seq<BlockAlloc> {
    let c = at_least_one(s);
    let used = count_sum(c);
    if c.len() == 0 {
        c
    } else {
        let k = largest_index(c);
        let a = c[k];
        if used > total {
            if a.cell_count > used - total {
                c.update(k, with_count(a, (a.cell_count - (used - total)) as u32))
            } else {
                c
            }
        } else if used < total {
            c.update(k, with_count(a, (a.cell_count + (total - used)) as u32))
        } else {
            c
        }
    }
}

proof fn lemma_count_sum_take(s: Seq<BlockAlloc>, i: int)
    requires
        0 <= i < s.len(),
    ensures
        count_sum(s.take(i + 1)) == count_sum(s.take(i)) + s[i].cell_count,
{
    assert(s.take(i + 1).drop_last() == s.take(i));
}

proof fn lemma_count_sum_nonneg(s: Seq<BlockAlloc>)
    ensures
        count_sum(s) >= 0,
    decreases s.len(),
{
    if s.len() > 0 {
        lemma_count_sum_nonneg(s.drop_last());
    }
}

proof fn lemma_count_sum_update(s: Seq<BlockAlloc>, k: int, a: BlockAlloc)
    requires
        0 <= k < s.len(),
    ensures
        count_sum(s.update(k, a)) == count_sum(s) - s[k].cell_count + a.cell_count,
    decreases s.len(),
{
    let u = s.update(k, a);
    if k == s.len() - 1 {
        assert(u.drop_last() == s.drop_last());
    } else {
        assert(u.drop_last() == s.drop_last().update(k, a));
        lemma_count_sum_update(s.drop_last(), k, a);
    }
}

/// Each count is at most the sum.
proof fn lemma_count_le_sum(s: Seq<BlockAlloc>, k: int)
    requires
        0 <= k < s.len(),
    ensures
        s[k].cell_count <= count_sum(s),
    decreases s.len(),
{
    lemma_count_sum_nonneg(s.drop_last());
    if k < s.len() - 1 {
        lemma_count_le_sum(s.drop_last(), k);
    }
}

proof fn lemma_largest_index_bounds(s: Seq<BlockAlloc>)
    requires
        s.len() > 0,
    ensures
        0 <= largest_index(s) < s.len(),
    decreases s.len(),
{
    if s.len() > 1 {
        lemma_largest_index_bounds(s.drop_last());
    }
}

/// Adjust the cell counts of the blocks to fill the grid of `total_cells`
/// cells exactly (see `spec_fit`).
pub fn fit_cell_counts(allocs: &mut Vec<BlockAlloc>, total_cells: u32)
    requires
        count_sum(at_least_one(old(allocs)@)) <= u32::MAX,
    ensures
        final(allocs)@ == spec_fit(old(allocs)@, total_cells),
{
    let ghost orig = allocs@;
    let ghost c = at_least_one(orig);
    let n = allocs.len();
    let mut used: u32 = 0;
    let mut i: usize = 0;
    while i < n
        invariant
            n == allocs.len(),
            orig.len() == n,
            c == at_least_one(orig),
            i <= n,
            count_sum(c) <= u32::MAX,
            forall|j: int| 0 <= j < i ==> #[trigger] allocs@[j] == c[j],
            forall|j: int| i <= j < n ==> #[trigger] allocs@[j] == orig[j],
            used == count_sum(c.take(i as int)),
        decreases n - i,
    {
        let a = allocs[i];
        let count = if a.cell_count < 1 {
            1
        } else {
            a.cell_count
        };
        proof {
            lemma_count_sum_take(c, i as int);
            lemma_count_sum_nonneg(c.skip(i + 1));
            assert(c == c.take(i + 1) + c.skip(i + 1));
            lemma_count_sum_append(c.take(i + 1), c.skip(i + 1));
        }
        allocs.set(i, BlockAlloc { region_idx: a.region_idx, is_gap: a.is_gap, cell_count: count });
        used = used + count;
        i = i + 1;
    }
    assert(allocs@ == c);
    assert(c.take(n as int) == c);
    if n == 0 {
        return;
    }
    let mut best: usize = 0;
    let mut k: usize = 1;
    assert(c.take(1).drop_last().len() == 0);
    while k < n
        invariant
            n == allocs.len(),
            allocs@ == c,
            1 <= k <= n,
            best < k,
            best == largest_index(c.take(k as int)),
        decreases n - k,
    {
        assert(c.take(k + 1).drop_last() == c.take(k as int));
        assert(c.take(k as int)[best as int] == c[best as int]);
        if allocs[k].cell_count >= allocs[best].cell_count {
            best = k;
        }
        k = k + 1;
    }
    assert(best == largest_index(c));
    let largest = allocs[best];
    if used > total_cells {
        let excess = used - total_cells;
        if largest.cell_count > excess {
            allocs.set(best, with_count_exec(largest, largest.cell_count - excess));
        }
    } else if used < total_cells {
        proof {
            lemma_count_le_sum(c, best as int);
        }
        allocs.set(best, with_count_exec(largest, largest.cell_count + (total_cells - used)));
    }
}

fn with_count_exec(a: BlockAlloc, c: u32) -> (r: BlockAlloc)
    ensures
        r == with_count(a, c),
{
    BlockAlloc { region_idx: a.region_idx, is_gap: a.is_gap, cell_count: c }
}

proof fn lemma_count_sum_append(a: Seq<BlockAlloc>, b: Seq<BlockAlloc>)
    ensures
        count_sum(a + b) == count_sum(a) + count_sum(b),
    decreases b.len(),
{
    if b.len() == 0 {
        assert(a + b == a);
    } else {
        assert((a + b).drop_last() == a + b.drop_last());
        lemma_count_sum_append(a, b.drop_last());
    }
}

/// The cells that the blocks take, in curve order: block after block, each
/// repeated as many times as its count.
pub open spec fn curve_cells(s: Seq<BlockAlloc>) -> Seq<HilbertCell>
    decreases s.len(),
{
    if s.len() == 0 {
        Seq::<HilbertCell>::empty()
    } else {
        curve_cells(s.drop_last()) + Seq::new(
            s.last().cell_count as nat,
            |i: int| HilbertCell { region_idx: s.last().region_idx, is_gap: s.last().is_gap },
        )
    }
}

/// The grid of `total` cells in curve order: the cells the blocks take, as
/// far as they go, then empty cells.
pub open spec fn spec_cells(s: Seq<BlockAlloc>, total: u32) -> Seq<Option<HilbertCell>> {
    let f = curve_cells(s);
    Seq::new(total as nat, |d: int| if d < f.len() { Some(f[d]) } else { None })
}

/// Number of cells of region `i` (gap cells excluded) in `f`.
pub open spec fn cells_of_region(f: Seq<HilbertCell>, i: int) -> nat
    decreases f.len(),
{
    if f.len() == 0 {
        0
    } else {
        cells_of_region(f.drop_last(), i) + if !f.last().is_gap && f.last().region_idx == i {
            1nat
        } else {
            0nat
        }
    }
}

/// For each of `n` regions, how many cells of the grid it occupies.
pub open spec fn spec_region_cell_counts(s: Seq<BlockAlloc>, total: u32, n: nat) -> Seq<int> {
    let f = curve_cells(s);
    let placed = if f.len() < total { f } else { f.take(total as int) };
    Seq::new(n, |i: int| cells_of_region(placed, i) as int)
}

proof fn lemma_curve_cells_len(s: Seq<BlockAlloc>)
    ensures
        curve_cells(s).len() == count_sum(s),
    decreases s.len(),
{
    if s.len() > 0 {
        lemma_curve_cells_len(s.drop_last());
    }
}

proof fn lemma_cells_of_region_bound(f: Seq<HilbertCell>, i: int)
    ensures
        cells_of_region(f, i) <= f.len(),
    decreases f.len(),
{
    if f.len() > 0 {
        lemma_cells_of_region_bound(f.drop_last(), i);
    }
}

/// Fill the cells of the grid along the Hilbert curve, and count the cells
/// of each of the `region_count` regions.
pub fn fill_cells(allocs: &[BlockAlloc], total_cells: u32, region_count: usize) -> (r: (Vec<Option<HilbertCell>>, Vec<u32>))
    ensures
        r.0@ == spec_cells(allocs@, total_cells),
        r.1.len() == region_count,
        forall|i: int| 0 <= i < region_count ==> #[trigger] r.1@[i] as int == spec_region_cell_counts(allocs@, total_cells, region_count as nat)[i],
{
    let ghost s = allocs@;
    let mut counts: Vec<u32> = Vec::new();
    let mut z: usize = 0;
    while z < region_count
        invariant
            z <= region_count,
            counts.len() == z,
            forall|i: int| 0 <= i < z ==> #[trigger] counts@[i] == 0,
        decreases region_count - z,
    {
        counts.push(0);
        z = z + 1;
    }
    let mut placed: Vec<Option<HilbertCell>> = Vec::new();
    let mut d: u32 = 0;
    let mut a: usize = 0;
    assert(s.take(0) == Seq::<BlockAlloc>::empty());
    assert(curve_cells(s.take(0)).take(0) == Seq::<HilbertCell>::empty());
    while a < allocs.len()
        invariant
            s == allocs@,
            a <= allocs.len(),
            counts.len() == region_count,
            d <= total_cells,
            d <= curve_cells(s.take(a as int)).len(),
            d < total_cells ==> d == curve_cells(s.take(a as int)).len(),
            placed@.len() == d,
            forall|k: int| 0 <= k < d ==> #[trigger] placed@[k] == Some(curve_cells(s.take(a as int))[k]),
            forall|i: int| 0 <= i < region_count ==> #[trigger] counts@[i] as int == cells_of_region(curve_cells(s.take(a as int)).take(d as int), i),
        decreases allocs.len() - a,
    {
        let alloc = allocs[a];
        let cell = HilbertCell { region_idx: alloc.region_idx, is_gap: alloc.is_gap };
        let ghost g = curve_cells(s.take(a as int));
        let ghost rep = Seq::new(alloc.cell_count as nat, |i: int| HilbertCell { region_idx: alloc.region_idx, is_gap: alloc.is_gap });
        assert(s.take(a + 1).drop_last() == s.take(a as int));
        assert(curve_cells(s.take(a + 1)) == g + rep);
        let mut j: u32 = 0;
        assert(rep.take(0) == Seq::<HilbertCell>::empty());
        assert(g + rep.take(0) == g);
        while j < alloc.cell_count
            invariant
                s == allocs@,
                a < allocs.len(),
                alloc == allocs@[a as int],
                cell == (HilbertCell { region_idx: alloc.region_idx, is_gap: alloc.is_gap }),
                rep == Seq::new(alloc.cell_count as nat, |i: int| HilbertCell { region_idx: alloc.region_idx, is_gap: alloc.is_gap }),
                j <= alloc.cell_count,
                counts.len() == region_count,
                d <= total_cells,
                d <= (g + rep.take(j as int)).len(),
                d < total_cells ==> d == (g + rep.take(j as int)).len(),
                placed@.len() == d,
                forall|k: int| 0 <= k < d ==> #[trigger] placed@[k] == Some((g + rep.take(j as int))[k]),
                forall|i: int| 0 <= i < region_count ==> #[trigger] counts@[i] as int == cells_of_region((g + rep.take(j as int)).take(d as int), i),
            ensures
                j < alloc.cell_count ==> d >= total_cells,
            decreases alloc.cell_count - j,
        {
            if d >= total_cells {
                break;
            }
            let ghost p = g + rep.take(j as int);
            let ghost p2 = g + rep.take(j + 1);
            assert(p2 == p.push(cell));
            assert(p.take(d as int) == p);
            assert(p2.take(d + 1) == p2);
            assert(p2.take(d + 1).drop_last() == p);
            proof {
                lemma_cells_of_region_bound(p, cell.region_idx as int);
            }
            placed.push(Some(cell));
            if !alloc.is_gap && alloc.region_idx < counts.len() {
                let idx = alloc.region_idx;
                let v = counts[idx];
                counts.set(idx, v + 1);
            }
            d = d + 1;
            j = j + 1;
        }
        let ghost p = g + rep.take(j as int);
        if j < alloc.cell_count {
            assert(d == total_cells);
            assert forall|k: int| 0 <= k < d implies #[trigger] p[k] == (g + rep)[k] by {
                if k >= g.len() {
                    assert(rep.take(j as int)[k - g.len()] == rep[k - g.len()]);
                }
            }
            assert(p.take(d as int) == (g + rep).take(d as int));
        } else {
            assert(rep.take(j as int) == rep);
        }
        a = a + 1;
    }
    assert(s.take(allocs.len() as int) == s);
    let ghost f = curve_cells(s);
    let ghost cut: nat = if f.len() < total_cells { f.len() } else { total_cells as nat };
    assert(d == cut);
    assert(f.take(d as int) == (if f.len() < total_cells { f } else { f.take(total_cells as int) }));
    while d < total_cells
        invariant
            d <= total_cells,
            cut <= d,
            placed@.len() == d,
            f == curve_cells(s),
            cut == (if f.len() < total_cells { f.len() } else { total_cells as nat }),
            forall|k: int| 0 <= k < cut ==> #[trigger] placed@[k] == Some(f[k]),
            forall|k: int| cut <= k < d ==> #[trigger] placed@[k] == None::<HilbertCell>,
        decreases total_cells - d,
    {
        placed.push(None);
        d = d + 1;
    }
    assert(placed@ == spec_cells(s, total_cells));
    (placed, counts)
}


/// Fitting keeps every block, with its region and kind, and leaves none
/// without a cell ("minimum 1 cell per block so nothing disappears").
pub proof fn law_fit_keeps_every_block(s: Seq<BlockAlloc>, total: u32)
    ensures
        spec_fit(s, total).len() == s.len(),
        forall|k: int| 0 <= k < s.len() ==> {
            &&& #[trigger] spec_fit(s, total)[k].cell_count >= 1
            &&& spec_fit(s, total)[k].region_idx == s[k].region_idx
            &&& spec_fit(s, total)[k].is_gap == s[k].is_gap
        },
{
    let c = at_least_one(s);
    if c.len() > 0 {
        lemma_largest_index_bounds(c);
        let k = largest_index(c);
        lemma_count_le_sum(c, k);
        assert(c[k].cell_count >= 1);
    }
}

proof fn lemma_largest_index_is_last_largest(s: Seq<BlockAlloc>)
    requires
        s.len() > 0,
    ensures
        forall|k: int| 0 <= k < s.len() ==> (#[trigger] s[k]).cell_count <= s[largest_index(s)].cell_count,
        forall|k: int| largest_index(s) < k < s.len() ==> (#[trigger] s[k]).cell_count < s[largest_index(s)].cell_count,
    decreases s.len(),
{
    lemma_largest_index_bounds(s);
    if s.len() > 1 {
        let q = s.drop_last();
        lemma_largest_index_is_last_largest(q);
        lemma_largest_index_bounds(q);
        assert forall|k: int| 0 <= k < s.len() - 1 implies #[trigger] s[k] == q[k] by {}
    }
}

/// Fitting changes one count at most: that of the block with the largest
/// count (raised to one), the last one among equal largest; every other block
/// keeps its count, raised to one if it was zero.  When the counts exceed the
/// grid by that largest count or more, it keeps its count too.
pub proof fn law_fit_changes_only_the_last_largest(s: Seq<BlockAlloc>, total: u32, m: int)
    requires
        0 <= m < s.len(),
        forall|k: int| 0 <= k < s.len() ==> (if (#[trigger] s[k]).cell_count < 1 { 1 } else { s[k].cell_count })
            <= (if s[m].cell_count < 1 { 1 } else { s[m].cell_count }),
        forall|k: int| m < k < s.len() ==> (if (#[trigger] s[k]).cell_count < 1 { 1 } else { s[k].cell_count })
            < (if s[m].cell_count < 1 { 1 } else { s[m].cell_count }),
    ensures
        forall|k: int| 0 <= k < s.len() && k != m ==> (#[trigger] spec_fit(s, total)[k]).cell_count
            == (if s[k].cell_count < 1 { 1 } else { s[k].cell_count }),
        ({
            let cm = if s[m].cell_count < 1 { 1 } else { s[m].cell_count };
            let used = count_sum(at_least_one(s));
            used > total && cm <= used - total ==> spec_fit(s, total)[m].cell_count == cm
        }),
{
    let c = at_least_one(s);
    assert(c.len() == s.len());
    lemma_largest_index_is_last_largest(c);
    lemma_largest_index_bounds(c);
    let j = largest_index(c);
    assert(c[m] == with_count(s[m], if s[m].cell_count < 1 { 1 } else { s[m].cell_count }));
    assert(c[j] == with_count(s[j], if s[j].cell_count < 1 { 1 } else { s[j].cell_count }));
    assert(c[m].cell_count == (if s[m].cell_count < 1 { 1 } else { s[m].cell_count }));
    assert(c[j].cell_count == (if s[j].cell_count < 1 { 1 } else { s[j].cell_count }));
    if j < m {
        assert(c[m].cell_count < c[j].cell_count);
        assert(c[j].cell_count <= c[m].cell_count);
    } else if m < j {
        assert(c[j].cell_count < c[m].cell_count);
        assert(c[m].cell_count <= c[j].cell_count);
    }
    assert(j == m);
}

/// Fitting fills the grid exactly, unless the counts exceed it by as much as
/// the largest count or more: then the counts sum to `total`.
pub proof fn law_fit_fills_grid(s: Seq<BlockAlloc>, total: u32)
    requires
        s.len() > 0,
        count_sum(at_least_one(s)) <= total || ({
            let c = at_least_one(s);
            c[largest_index(c)].cell_count > count_sum(c) - total
        }),
    ensures
        count_sum(spec_fit(s, total)) == total,
{
    let c = at_least_one(s);
    lemma_largest_index_bounds(c);
    let k = largest_index(c);
    let used = count_sum(c);
    if used > total {
        lemma_count_sum_update(c, k, with_count(c[k], (c[k].cell_count - (used - total)) as u32));
    } else if used < total {
        lemma_count_le_sum(c, k);
        lemma_count_sum_update(c, k, with_count(c[k], (c[k].cell_count + (total - used)) as u32));
    }
}

/// Blocks whose counts sum to the grid size leave no cell of the grid empty.
pub proof fn law_full_counts_fill_every_cell(s: Seq<BlockAlloc>, total: u32)
    requires
        count_sum(s) == total,
    ensures
        forall|d: int| 0 <= d < total ==> #[trigger] spec_cells(s, total)[d] is Some,
{
    lemma_curve_cells_len(s);
}


/// Number of cells of the grid `g` that hold a cell of region `i` (gap
/// cells excluded).
pub open spec fn grid_cells_of_region(g: Seq<Option<HilbertCell>>, i: int) -> nat
    decreases g.len(),
{
    if g.len() == 0 {
        0
    } else {
        grid_cells_of_region(g.drop_last(), i) + match g.last() {
            Some(c) => if !c.is_gap && c.region_idx == i { 1nat } else { 0nat },
            None => 0nat,
        }
    }
}

/// The first `t` cells of a grid laid out from the curve cells `f`.
spec fn padded(f: Seq<HilbertCell>, t: nat) -> Seq<Option<HilbertCell>> {
    Seq::new(t, |d: int| if d < f.len() { Some(f[d]) } else { None })
}

proof fn lemma_padded_count(f: Seq<HilbertCell>, t: nat, i: int)
    ensures
        grid_cells_of_region(padded(f, t), i) == cells_of_region(
            f.take(if t < f.len() { t as int } else { f.len() as int }),
            i,
        ),
    decreases t,
{
    if t == 0 {
        assert(f.take(0) == Seq::<HilbertCell>::empty());
    } else {
        let t1 = (t - 1) as nat;
        lemma_padded_count(f, t1, i);
        assert(padded(f, t).drop_last() == padded(f, t1));
        if t1 < f.len() {
            assert(f.take(t as int).drop_last() == f.take(t1 as int));
        }
    }
}

/// The count of cells given to each region is the number of cells of the
/// grid that hold that region (gap cells excluded).
pub proof fn law_region_counts_match_cells(s: Seq<BlockAlloc>, total: u32, n: nat)
    ensures
        forall|i: int| 0 <= i < n ==> #[trigger] spec_region_cell_counts(s, total, n)[i]
            == grid_cells_of_region(spec_cells(s, total), i),
{
    let f = curve_cells(s);
    assert(spec_cells(s, total) == padded(f, total as nat));
    if f.len() < total {
        assert(f.take(f.len() as int) == f);
    }
    assert forall|i: int| 0 <= i < n implies #[trigger] spec_region_cell_counts(s, total, n)[i]
        == grid_cells_of_region(spec_cells(s, total), i) by {
        lemma_padded_count(f, total as nat, i);
    }
}

proof fn lemma_curve_cells_at(s: Seq<BlockAlloc>, k: int, d: int)
    requires
        0 <= k < s.len(),
        count_sum(s.take(k)) <= d < count_sum(s.take(k + 1)),
    ensures
        d < curve_cells(s).len(),
        curve_cells(s)[d] == (HilbertCell { region_idx: s[k].region_idx, is_gap: s[k].is_gap }),
    decreases s.len(),
{
    let q = s.drop_last();
    lemma_curve_cells_len(q);
    lemma_curve_cells_len(s);
    lemma_count_sum_nonneg(s.take(k));
    let rep = Seq::new(s.last().cell_count as nat, |i: int| HilbertCell { region_idx: s.last().region_idx, is_gap: s.last().is_gap });
    assert(curve_cells(s) == curve_cells(q) + rep);
    if k < s.len() - 1 {
        assert(q.take(k) == s.take(k));
        assert(q.take(k + 1) == s.take(k + 1));
        lemma_curve_cells_at(q, k, d);
        assert(q.take(q.len() as int) == q);
        lemma_count_sum_prefix_le(q, k + 1);
        assert(d < curve_cells(q).len());
        assert(curve_cells(s)[d] == curve_cells(q)[d]);
    } else {
        assert(s.take(k) == q);
        assert(s.take(k + 1) == s);
        assert(curve_cells(s)[d] == rep[d - curve_cells(q).len()]);
    }
}

proof fn lemma_count_sum_prefix_le(s: Seq<BlockAlloc>, i: int)
    requires
        0 <= i <= s.len(),
    ensures
        count_sum(s.take(i)) <= count_sum(s),
    decreases s.len() - i,
{
    if i < s.len() {
        lemma_count_sum_take(s, i);
        lemma_count_sum_prefix_le(s, i + 1);
    } else {
        assert(s.take(i) == s);
    }
}

/// The grid holds the blocks in order along the curve: block `k` takes the
/// cells from the sum of the counts before it up to that sum plus its own
/// count (as far as the grid goes), and the cells after all the blocks are
/// empty.
pub proof fn law_cells_follow_blocks(s: Seq<BlockAlloc>, total: u32, k: int, d: int)
    requires
        0 <= d < total,
    ensures
        0 <= k < s.len() && count_sum(s.take(k)) <= d < count_sum(s.take(k + 1))
            ==> spec_cells(s, total)[d] == Some(HilbertCell { region_idx: s[k].region_idx, is_gap: s[k].is_gap }),
        d >= count_sum(s) ==> spec_cells(s, total)[d] is None,
{
    lemma_curve_cells_len(s);
    if 0 <= k < s.len() && count_sum(s.take(k)) <= d < count_sum(s.take(k + 1)) {
        lemma_curve_cells_at(s, k, d);
    }
}

/// With no block to place, every cell of the grid stays empty.
pub proof fn law_no_blocks_no_cells(total: u32)
    ensures
        forall|d: int| 0 <= d < total ==> #[trigger] spec_cells(Seq::<BlockAlloc>::empty(), total)[d] is None,
{
}


// ── Drawing decisions ───────────────────────────────────────────────────────

/// Two cells belong to different blocks.
pub open spec fn differs(a: HilbertCell, b: HilbertCell) -> bool {
    a.region_idx != b.region_idx || a.is_gap != b.is_gap
}

/// Cell `nd` is filled and belongs to another block than `cell`.
pub open spec fn border_with(cells: Seq<Option<HilbertCell>>, cell: HilbertCell, nd: int) -> bool {
    0 <= nd < cells.len() && (cells[nd] matches Some(nc) && differs(nc, cell))
}

/// Whether the right and the bottom border of cell `d` (in curve order) are
/// outlined: the cell is filled and its right (bottom) neighbour in the grid
/// is filled by another block.
pub open spec fn spec_cell_borders(order: nat, cells: Seq<Option<HilbertCell>>, d: nat) -> (bool, bool) {
    match cells[d as int] {
        None => (false, false),
        Some(cell) => {
            let p = spec_d2xy(order, d);
            let g = side(order) as int;
            (
                p.0 + 1 < g && border_with(cells, cell, spec_xy2d(order, p.0 + 1, p.1)),
                p.1 + 1 < g && border_with(cells, cell, spec_xy2d(order, p.0, p.1 + 1)),
            )
        },
    }
}

/// Region boundary outlines: which borders of cell `d` to draw.
pub fn cell_borders(order: u32, cells: &Vec<Option<HilbertCell>>, d: u32) -> (r: (bool, bool))
    requires
        order <= 15,
        cells.len() == area(order as nat),
        d < cells.len(),
    ensures
        r == spec_cell_borders(order as nat, cells@, d as nat),
{
    proof {
        vstd::arithmetic::power2::lemma_pow2_strictly_increases(order as nat, 16);
        lemma2_to64();
        vstd::bits::lemma_u32_pow2_no_overflow(order as nat);
        vstd::bits::lemma_u32_shl_is_mul(1, order);
    }
    let cell = match cells[d as usize] {
        Some(c) => c,
        None => {
            return (false, false);
        },
    };
    let grid_size = 1u32 << order;
    let (hx, hy) = d2xy(order, d);
    let mut right = false;
    let mut bottom = false;
    if hx + 1 < grid_size {
        let nd = xy2d(order, hx + 1, hy);
        if let Some(nc) = cells[nd as usize] {
            right = nc.region_idx != cell.region_idx || nc.is_gap != cell.is_gap;
        }
    }
    if hy + 1 < grid_size {
        let nd = xy2d(order, hx, hy + 1);
        if let Some(nc) = cells[nd as usize] {
            bottom = nc.region_idx != cell.region_idx || nc.is_gap != cell.is_gap;
        }
    }
    (right, bottom)
}

/// A border of a filled cell is outlined exactly when the neighbour on that
/// side lies in the grid and holds a filled cell that differs from it: another
/// region, or a gap next to a region (even with the same region index).
pub proof fn law_borders_outline_other_blocks(order: nat, cells: Seq<Option<HilbertCell>>, d: nat)
    requires
        d < cells.len(),
    ensures
        ({
            let p = spec_d2xy(order, d);
            let g = side(order) as int;
            let right = spec_xy2d(order, p.0 + 1, p.1);
            let below = spec_xy2d(order, p.0, p.1 + 1);
            let b = spec_cell_borders(order, cells, d);
            &&& b.0 <==> (cells[d as int] is Some && p.0 + 1 < g && 0 <= right < cells.len()
                && cells[right] is Some && cells[right] != cells[d as int])
            &&& b.1 <==> (cells[d as int] is Some && p.1 + 1 < g && 0 <= below < cells.len()
                && cells[below] is Some && cells[below] != cells[d as int])
        }),
{
}

/// A label of at most `max_chars` bytes: the text itself when it fits, else
/// its first `max_chars - 1` bytes and an ellipsis (just the ellipsis when
/// `max_chars` is 3 or less).
pub fn truncate_label(s: &str, max_chars: usize) -> (r: String)
    requires
        s.len() > max_chars && max_chars > 3 ==> vstd::utf8::is_char_boundary(s.spec_bytes(), max_chars - 1),
    ensures
        s.len() <= max_chars ==> r@ == s@,
        s.len() > max_chars && max_chars > 3 ==> r@ == vstd::utf8::decode_utf8(
            s.spec_bytes().subrange(0, max_chars - 1),
        ).push('…'),
        s.len() > max_chars && max_chars <= 3 ==> r@ == seq!['…'],
{
    let mut r = String::new();
    if s.len() <= max_chars {
        crate::text::push_str(&mut r, s);
    } else if max_chars > 3 {
        let (head, _) = s.split_at(max_chars - 1);
        proof {
            vstd::utf8::encode_utf8_decode_utf8(head@);
        }
        crate::text::push_str(&mut r, head);
        crate::text::push_char(&mut r, '…');
    } else {
        crate::text::push_char(&mut r, '…');
    }
    r
}

/// The selection after clicking region `clicked`: clicking the selected
/// region clears the selection, any other selects it.
pub fn toggle_selection(selected: Option<usize>, clicked: usize) -> (r: Option<usize>)
    ensures
        r == (if selected == Some(clicked) {
            None
        } else {
            Some(clicked)
        }),
{
    match selected {
        Some(i) => if i == clicked {
            None
        } else {
            Some(clicked)
        },
        None => Some(clicked),
    }
}

// ── Viewer state ────────────────────────────────────────────────────────────

/// What the viewer keeps between frames, apart from drawing state.
pub struct ViewerState {
    pub regions: Vec<MemoryRegion>,
    pub error: Option<String>,
    pub hovered_region: Option<usize>,
    pub selected_region: Option<usize>,
    pub show_drop: bool,
    pub show_free: bool,
    pub gap_threshold_kib: u64,
    /// Hilbert curve order (grid side = 2^order). Higher = more detail.
    pub hilbert_order: u32,
    /// The Hilbert map needs recomputing.
    pub dirty: bool,
}

impl ViewerState {
    /// The state before the first load: no regions, everything shown, gaps
    /// above 64 KiB compressed, a 128×128 grid, to be computed.
    pub fn new() -> (s: Self)
        ensures
            s.regions@.len() == 0,
            s.error is None,
            s.hovered_region is None,
            s.selected_region is None,
            s.show_drop,
            s.show_free,
            s.gap_threshold_kib == 64,
            s.hilbert_order == 7,
            s.dirty,
    {
        ViewerState {
            regions: Vec::new(),
            error: None,
            hovered_region: None,
            selected_region: None,
            show_drop: true,
            show_free: true,
            gap_threshold_kib: 64,
            hilbert_order: 7,
            dirty: true,
        }
    }

    /// Takes the result of loading the map: new regions replace the old ones,
    /// clear the error and ask for a recompute; an error is kept and shown,
    /// the old regions stay.
    pub fn apply_load(&mut self, loaded: Result<Vec<MemoryRegion>, String>)
        ensures
            match loaded {
                Ok(v) => final(self).regions@ == v@ && final(self).error is None && final(self).dirty,
                Err(e) => final(self).regions@ == old(self).regions@ && final(self).error == Some(e)
                    && final(self).dirty == old(self).dirty,
            },
            final(self).hovered_region == old(self).hovered_region,
            final(self).selected_region == old(self).selected_region,
            final(self).show_drop == old(self).show_drop,
            final(self).show_free == old(self).show_free,
            final(self).gap_threshold_kib == old(self).gap_threshold_kib,
            final(self).hilbert_order == old(self).hilbert_order,
    {
        match loaded {
            Ok(regions) => {
                self.regions = regions;
                self.error = None;
                self.dirty = true;
            },
            Err(e) => {
                self.error = Some(e);
            },
        }
    }

    /// The gap threshold in bytes.
    pub fn gap_threshold(&self) -> (t: u64)
        requires
            self.gap_threshold_kib * 1024 <= u64::MAX,
        ensures
            t == self.gap_threshold_kib * 1024,
    {
        self.gap_threshold_kib * 1024
    }

    /// The regions to draw.
    pub fn filtered_regions(&self) -> (v: Vec<MemoryRegion>)
        ensures
            region_views(v@) == shown_regions(region_views(self.regions@), self.show_drop, self.show_free),
    {
        filter_regions(self.regions.as_slice(), self.show_drop, self.show_free)
    }
}

} // verus!
