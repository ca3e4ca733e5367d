//! Hilbert curve mapping between 1D indices and 2D coordinates.
//!
//! A Hilbert curve of order `k` visits every cell of a `2^k × 2^k` grid
//! exactly once, moving between grid neighbours at every step.  The curve of
//! order `k` is made of four copies of the curve of order `k - 1`, one per
//! quadrant, each rotated or reflected so that they join end to end.
//!
//! The spec functions below state that recursive construction directly;
//! `d2xy` and `xy2d` compute it with the usual bit-by-bit loops and are
//! proved against it.  The public coordinates are transposed with respect to
//! the textbook orientation, so that addresses flow left to right first.
use vstd::arithmetic::div_mod::*;
use vstd::arithmetic::power2::*;
use vstd::bits::*;
use vstd::prelude::*;

verus! {

/// Side length of the grid of a curve of order `k`.
pub open spec fn side(k: nat) -> nat {
    pow2(k)
}

/// Number of cells of a curve of order `k` (`4^k`).
pub open spec fn area(k: nat) -> nat {
    pow2(2 * k)
}

/// Horizontal half (0 or 1) of quadrant number `q` (0..4) of a curve.
pub open spec fn quad_rx(q: int) -> int {
    if q >= 2 {
        1
    } else {
        0
    }
}

/// Vertical half (0 or 1) of quadrant number `q` (0..4) of a curve.
pub open spec fn quad_ry(q: int) -> int {
    if q == 1 || q == 2 {
        1
    } else {
        0
    }
}

/// Quadrant number of the quadrant with halves `rx`, `ry`.
pub open spec fn quad_number(rx: int, ry: int) -> int {
    if rx == 0 {
        if ry == 0 {
            0
        } else {
            1
        }
    } else {
        if ry == 1 {
            2
        } else {
            3
        }
    }
}

/// Orientation of the sub-curve inside a quadrant of side `s`: the lower
/// quadrants are reflected across a diagonal (the right one across the
/// anti-diagonal), the upper ones are kept as they are.
pub open spec fn orient(s: int, x: int, y: int, rx: int, ry: int) -> (int, int) {
    if ry == 0 {
        if rx == 1 {
            (s - 1 - y, s - 1 - x)
        } else {
            (y, x)
        }
    } else {
        (x, y)
    }
}

/// Cell visited at step `d` of the curve of order `k` (for `d < 4^k`), in the
/// textbook orientation: the top two bits of `d` select the quadrant, the
/// rest is the position along the oriented sub-curve of order `k - 1`.
pub open spec fn curve_point(k: nat, d: nat) -> (int, int)
    decreases k,
{
    if k == 0 {
        (0, 0)
    } else {
        let s = pow2((k - 1) as nat) as int;
        let m = area((k - 1) as nat);
        let p = curve_point((k - 1) as nat, d % m);
        let q = ((d / m) % 4) as int;
        let o = orient(s, p.0, p.1, quad_rx(q), quad_ry(q));
        (o.0 + s * quad_rx(q), o.1 + s * quad_ry(q))
    }
}

/// Step at which the curve of order `k` visits cell `(x, y)`, in the textbook
/// orientation; only the low `k` bits of the coordinates count.
pub open spec fn curve_index(k: nat, x: int, y: int) -> int
    decreases k,
{
    if k == 0 {
        0
    } else {
        let s = pow2((k - 1) as nat) as int;
        let rx = (x / s) % 2;
        let ry = (y / s) % 2;
        let o = orient(s, x % s, y % s, rx, ry);
        quad_number(rx, ry) * area((k - 1) as nat) + curve_index((k - 1) as nat, o.0, o.1)
    }
}

/// What `d2xy(order, d)` returns: the cell of step `d mod 4^order`, transposed.
pub open spec fn spec_d2xy(order: nat, d: nat) -> (int, int) {
    let p = curve_point(order, d % area(order));
    (p.1, p.0)
}

/// What `xy2d(order, x, y)` returns: the step of the transposed cell.
pub open spec fn spec_xy2d(order: nat, x: int, y: int) -> int {
    curve_index(order, y, x)
}

/// Two cells are neighbours in the grid.
pub open spec fn adjacent(p: (int, int), q: (int, int)) -> bool {
    abs(p.0 - q.0) + abs(p.1 - q.1) == 1
}

pub open spec fn abs(v: int) -> int {
    if v < 0 {
        -v
    } else {
        v
    }
}

proof fn lemma_area_step(k: nat)
    ensures
        area(k + 1) == 4 * area(k),
        area(k) > 0,
        pow2(k + 1) == 2 * pow2(k),
        pow2(k) > 0,
{
    lemma_pow2_unfold(2 * k + 2);
    lemma_pow2_unfold(2 * k + 1);
    lemma_pow2_unfold(k + 1);
    lemma_pow2_pos(2 * k);
    lemma_pow2_pos(k);
}

proof fn lemma_area_is_square(k: nat)
    ensures
        area(k) == pow2(k) * pow2(k),
{
    lemma_pow2_adds(k, k);
    assert(k + k == 2 * k);
}

/// Splits `d` into quotient and remainder by `m` when both are known.
proof fn lemma_split(d: int, m: int, q: int, r: int)
    requires
        m > 0,
        0 <= r < m,
        d == q * m + r,
    ensures
        d / m == q,
        d % m == r,
{
    lemma_fundamental_div_mod_converse(d, m, q, r);
}

proof fn lemma_point_bounds(k: nat, d: nat)
    ensures
        0 <= curve_point(k, d).0 < pow2(k),
        0 <= curve_point(k, d).1 < pow2(k),
    decreases k,
{
    if k == 0 {
        lemma2_to64();
    } else {
        let j = (k - 1) as nat;
        lemma_area_step(j);
        let m = area(j);
        lemma_point_bounds(j, d % m);
        let q = ((d / m) % 4) as int;
        assert(0 <= quad_rx(q) <= 1 && 0 <= quad_ry(q) <= 1);
        let s = pow2(j) as int;
        let a = quad_rx(q);
        let b = quad_ry(q);
        assert(s * a == 0 || s * a == s) by (nonlinear_arith)
            requires
                0 <= a <= 1,
        ;
        assert(s * b == 0 || s * b == s) by (nonlinear_arith)
            requires
                0 <= b <= 1,
        ;
    }
}

proof fn lemma_index_bounds(k: nat, x: int, y: int)
    ensures
        0 <= curve_index(k, x, y) < area(k),
    decreases k,
{
    if k == 0 {
        lemma2_to64();
    } else {
        let j = (k - 1) as nat;
        lemma_area_step(j);
        let s = pow2(j) as int;
        let m = area(j) as int;
        let rx = (x / s) % 2;
        let ry = (y / s) % 2;
        let o = orient(s, x % s, y % s, rx, ry);
        lemma_index_bounds(j, o.0, o.1);
        let qn = quad_number(rx, ry);
        assert(0 <= qn <= 3);
        assert(qn * m <= 3 * m) by (nonlinear_arith)
            requires
                0 <= qn <= 3,
                m > 0,
        ;
        assert(0 <= qn * m) by (nonlinear_arith)
            requires
                0 <= qn,
                m > 0,
        ;
    }
}

/// Only the low `k` bits of the coordinates matter to `curve_index`.
proof fn lemma_index_low_bits(k: nat, x: int, y: int)
    requires
        k > 0,
        x >= 0,
        y >= 0,
    ensures
        curve_index(k, x, y) == curve_index(k, x % (pow2(k) as int), y % (pow2(k) as int)),
{
    let j = (k - 1) as nat;
    lemma_area_step(j);
    let s = pow2(j) as int;
    lemma_mod_breakdown(x, s, 2);
    lemma_mod_breakdown(y, s, 2);
    lemma_mod_mod(x, s, 2);
    lemma_mod_mod(y, s, 2);
    let xm = x % (s * 2);
    let ym = y % (s * 2);
    lemma_mod_pos_bound(x, s);
    lemma_mod_pos_bound(y, s);
    lemma_mod_pos_bound(x / s, 2);
    lemma_mod_pos_bound(y / s, 2);
    lemma_split(xm, s, (x / s) % 2, x % s);
    lemma_split(ym, s, (y / s) % 2, y % s);
    lemma_small_mod(((x / s) % 2) as nat, 2);
    lemma_small_mod(((y / s) % 2) as nat, 2);
    assert(s * 2 == pow2(k));
}

/// Reading the step back from the cell gives the step (the curve is injective).
pub proof fn lemma_index_of_point(k: nat, d: nat)
    requires
        d < area(k),
    ensures
        curve_index(k, curve_point(k, d).0, curve_point(k, d).1) == d,
    decreases k,
{
    if k > 0 {
        let j = (k - 1) as nat;
        lemma_area_step(j);
        let s = pow2(j) as int;
        let m = area(j) as int;
        let r = d % (m as nat);
        lemma_index_of_point(j, r);
        lemma_point_bounds(j, r);
        let p = curve_point(j, r);
        lemma_fundamental_div_mod(d as int, m);
        lemma_mod_pos_bound(d as int, m);
        let qd = d as int / m;
        assert(0 <= qd < 4) by {
            lemma_div_pos_is_pos(d as int, m);
            if qd >= 4 {
                assert(m * qd >= m * 4) by (nonlinear_arith)
                    requires
                        qd >= 4,
                        m > 0,
                ;
            }
        }
        lemma_small_mod(qd as nat, 4);
        let q = qd;
        let rx = quad_rx(q);
        let ry = quad_ry(q);
        let o = orient(s, p.0, p.1, rx, ry);
        let px = o.0 + s * rx;
        let py = o.1 + s * ry;
        assert(curve_point(k, d) == (px, py));
        lemma_split(px, s, rx, o.0);
        lemma_split(py, s, ry, o.1);
        lemma_small_mod(rx as nat, 2);
        lemma_small_mod(ry as nat, 2);
        assert(quad_number(rx, ry) == q);
        assert(orient(s, o.0, o.1, rx, ry) == p);
        assert(curve_index(k, px, py) == q * m + curve_index(j, p.0, p.1));
        assert(q * m + r == d) by {
            assert(m * qd == qd * m) by (nonlinear_arith);
        }
    } else {
        lemma2_to64();
    }
}

/// Reading the cell back from the step gives the cell (the curve is onto).
pub proof fn lemma_point_of_index(k: nat, x: int, y: int)
    requires
        0 <= x < pow2(k),
        0 <= y < pow2(k),
    ensures
        curve_index(k, x, y) >= 0,
        curve_point(k, curve_index(k, x, y) as nat) == (x, y),
    decreases k,
{
    lemma_index_bounds(k, x, y);
    if k == 0 {
        lemma2_to64();
    } else {
        let j = (k - 1) as nat;
        lemma_area_step(j);
        let s = pow2(j) as int;
        let m = area(j) as int;
        lemma_fundamental_div_mod(x, s);
        lemma_fundamental_div_mod(y, s);
        lemma_mod_pos_bound(x, s);
        lemma_mod_pos_bound(y, s);
        let xq = x / s;
        let yq = y / s;
        assert(0 <= xq < 2 && 0 <= yq < 2) by {
            lemma_div_pos_is_pos(x, s);
            lemma_div_pos_is_pos(y, s);
            if xq >= 2 {
                assert(s * xq >= s * 2) by (nonlinear_arith)
                    requires
                        xq >= 2,
                        s > 0,
                ;
            }
            if yq >= 2 {
                assert(s * yq >= s * 2) by (nonlinear_arith)
                    requires
                        yq >= 2,
                        s > 0,
                ;
            }
        }
        lemma_small_mod(xq as nat, 2);
        lemma_small_mod(yq as nat, 2);
        let rx = xq;
        let ry = yq;
        let o = orient(s, x % s, y % s, rx, ry);
        lemma_point_of_index(j, o.0, o.1);
        lemma_index_bounds(j, o.0, o.1);
        let c = curve_index(j, o.0, o.1);
        let qn = quad_number(rx, ry);
        let d = qn * m + c;
        assert(curve_index(k, x, y) == d);
        lemma_split(d, m, qn, c);
        lemma_small_mod(qn as nat, 4);
        assert(quad_rx(qn) == rx && quad_ry(qn) == ry);
        assert(orient(s, o.0, o.1, rx, ry) == (x % s, y % s));
        assert(x == s * rx + x % s);
        assert(y == s * ry + y % s);
        assert(s * rx == rx * s) by (nonlinear_arith);
        assert(s * ry == ry * s) by (nonlinear_arith);
    }
}

proof fn lemma_start_end(k: nat)
    ensures
        curve_point(k, 0) == (0int, 0int),
        curve_point(k, (area(k) - 1) as nat) == ((pow2(k) - 1) as int, 0int),
    decreases k,
{
    if k == 0 {
        lemma2_to64();
    } else {
        let j = (k - 1) as nat;
        lemma_area_step(j);
        lemma_start_end(j);
        let m = area(j) as int;
        let s = pow2(j) as int;
        lemma_split(0, m, 0, 0);
        let last = (area(k) - 1) as int;
        lemma_split(last, m, 3, m - 1);
        lemma_small_mod(3, 4);
        lemma_small_mod(0, 4);
        assert(s * quad_rx(3) == s);
        assert(s * quad_ry(3) == 0);
        assert(s * quad_rx(0) == 0);
        assert(s * quad_ry(0) == 0);
    }
}

proof fn lemma_orient_keeps_adjacency(s: int, a: (int, int), b: (int, int), rx: int, ry: int)
    requires
        adjacent(a, b),
    ensures
        adjacent(orient(s, a.0, a.1, rx, ry), orient(s, b.0, b.1, rx, ry)),
{
}

/// Consecutive steps of the curve visit neighbouring cells.
pub proof fn lemma_steps_adjacent(k: nat, d: nat)
    requires
        d + 1 < area(k),
    ensures
        adjacent(curve_point(k, d), curve_point(k, d + 1)),
    decreases k,
{
    if k > 0 {
        let j = (k - 1) as nat;
        lemma_area_step(j);
        let s = pow2(j) as int;
        let m = area(j) as int;
        lemma_fundamental_div_mod(d as int, m);
        lemma_mod_pos_bound(d as int, m);
        let q = d as int / m;
        let r = d as int % m;
        assert(0 <= q < 4) by {
            lemma_div_pos_is_pos(d as int, m);
            if q >= 4 {
                assert(m * q >= m * 4) by (nonlinear_arith)
                    requires
                        q >= 4,
                        m > 0,
                ;
            }
        }
        assert(d == q * m + r) by {
            assert(m * q == q * m) by (nonlinear_arith);
        }
        lemma_small_mod(q as nat, 4);
        if r + 1 < m {
            lemma_split(d + 1 as int, m, q, r + 1);
            lemma_steps_adjacent(j, r as nat);
            let a = curve_point(j, r as nat);
            let b = curve_point(j, (r + 1) as nat);
            lemma_orient_keeps_adjacency(s, a, b, quad_rx(q), quad_ry(q));
            assert(curve_point(k, d) == (orient(s, a.0, a.1, quad_rx(q), quad_ry(q)).0 + s * quad_rx(q), orient(s, a.0, a.1, quad_rx(q), quad_ry(q)).1 + s * quad_ry(q)));
            assert(curve_point(k, (d + 1) as nat) == (orient(s, b.0, b.1, quad_rx(q), quad_ry(q)).0 + s * quad_rx(q), orient(s, b.0, b.1, quad_rx(q), quad_ry(q)).1 + s * quad_ry(q)));
        } else {
            assert(q < 3) by {
                if q >= 3 {
                    assert(q * m >= 3 * m) by (nonlinear_arith)
                        requires
                            q >= 3,
                            m > 0,
                    ;
                }
            }
            assert((q + 1) * m == q * m + m) by (nonlinear_arith);
            lemma_split(d + 1 as int, m, q + 1, 0);
            lemma_small_mod((q + 1) as nat, 4);
            lemma_start_end(j);
            assert(r == m - 1);
            let e = curve_point(j, (m - 1) as nat);
            assert(e == (s - 1, 0int));
            assert(curve_point(j, 0) == (0int, 0int));
            if q == 0 {
                assert(s * quad_rx(0) == 0 && s * quad_ry(0) == 0);
                assert(s * quad_rx(1) == 0 && s * quad_ry(1) == s);
            } else if q == 1 {
                assert(s * quad_rx(1) == 0 && s * quad_ry(1) == s);
                assert(s * quad_rx(2) == s && s * quad_ry(2) == s);
            } else {
                assert(s * quad_rx(2) == s && s * quad_ry(2) == s);
                assert(s * quad_rx(3) == s && s * quad_ry(3) == 0);
            }
            assert(curve_point(k, d) == (orient(s, e.0, e.1, quad_rx(q), quad_ry(q)).0 + s * quad_rx(q), orient(s, e.0, e.1, quad_rx(q), quad_ry(q)).1 + s * quad_ry(q)));
            let o1 = orient(s, 0, 0, quad_rx(q + 1), quad_ry(q + 1));
            assert(curve_point(k, (d + 1) as nat) == (o1.0 + s * quad_rx(q + 1), o1.1 + s * quad_ry(q + 1)));
        }
    } else {
        lemma2_to64();
    }
}


/// Going from a distance to a cell and back gives the distance again: for
/// every `d < 4^order`, `xy2d(order, d2xy(order, d)) == d`.
pub proof fn law_distance_round_trip(order: nat, d: nat)
    requires
        d < area(order),
    ensures
        spec_xy2d(order, spec_d2xy(order, d).0, spec_d2xy(order, d).1) == d,
{
    lemma_small_mod(d, area(order));
    lemma_index_of_point(order, d);
}

/// Going from a cell of the grid to its distance and back gives the cell
/// again: for `x, y < 2^order`, `d2xy(order, xy2d(order, x, y)) == (x, y)`.
pub proof fn law_cell_round_trip(order: nat, x: int, y: int)
    requires
        0 <= x < side(order),
        0 <= y < side(order),
    ensures
        spec_xy2d(order, x, y) >= 0,
        spec_d2xy(order, spec_xy2d(order, x, y) as nat) == (x, y),
{
    lemma_point_of_index(order, y, x);
    lemma_index_bounds(order, y, x);
    lemma_small_mod(curve_index(order, y, x) as nat, area(order));
}

/// Consecutive distances land on neighbouring cells: for `d + 1 < 4^order`,
/// the cells `d2xy(order, d)` and `d2xy(order, d + 1)` differ by one step
/// along exactly one axis.
pub proof fn law_consecutive_cells_adjacent(order: nat, d: nat)
    requires
        d + 1 < area(order),
    ensures
        adjacent(spec_d2xy(order, d), spec_d2xy(order, d + 1)),
{
    lemma_small_mod(d, area(order));
    lemma_small_mod(d + 1, area(order));
    lemma_steps_adjacent(order, d);
}

/// Every distance lands inside the grid.
pub proof fn law_cells_inside_grid(order: nat, d: nat)
    ensures
        0 <= spec_d2xy(order, d).0 < side(order),
        0 <= spec_d2xy(order, d).1 < side(order),
{
    lemma_point_bounds(order, d % area(order));
}

/// The curve starts in the corner `(0, 0)` and ends in the corner
/// `(0, 2^order - 1)`: with the public coordinates it walks the grid from the
/// top-left cell to the bottom-left one.
pub proof fn law_curve_corners(order: nat)
    ensures
        spec_d2xy(order, 0) == (0int, 0int),
        spec_d2xy(order, (area(order) - 1) as nat) == (0int, side(order) - 1),
{
    lemma_area_step(order);
    lemma_start_end(order);
    lemma_small_mod(0, area(order));
    lemma_small_mod((area(order) - 1) as nat, area(order));
}

/// `(n - 1 - v)` in 32-bit wrapping arithmetic.
pub open spec fn flip(n: u32, v: u32) -> int {
    (n as int - 1 - v as int) % 0x1_0000_0000
}

/// Convert a 1D distance `d` along a Hilbert curve of the given `order`
/// (grid side = 2^order) to 2D coordinates (x, y).
pub fn d2xy(order: u32, d: u32) -> (r: (u32, u32))
    requires
        order < 32,
    ensures
        r.0 as int == spec_d2xy(order as nat, d as nat).0,
        r.1 as int == spec_d2xy(order as nat, d as nat).1,
        r.0 < side(order as nat),
        r.1 < side(order as nat),
{
    proof {
        law_cells_inside_grid(order as nat, d as nat);
    }
    proof {
        lemma_u32_pow2_no_overflow(order as nat);
        lemma_u32_shl_is_mul(1, order);
    }
    let n = 1u32 << order;
    let mut x = 0u32;
    let mut y = 0u32;
    let mut dd = d;
    let mut s = 1u32;
    let ghost mut i: nat = 0;
    proof {
        lemma2_to64();
        assert(area(0) == 1);
        assert(d as nat % 1 == 0 && d as nat / 1 == d);
    }
    while s < n
        invariant
            order < 32,
            n as nat == pow2(order as nat),
            i <= order,
            s as nat == pow2(i),
            dd as nat == d as nat / area(i),
            x < s,
            y < s,
            (x as int, y as int) == curve_point(i, d as nat % area(i)),
        decreases n - s,
    {
        proof {
            if i >= order {
                if i > order {
                    lemma_pow2_strictly_increases(order as nat, i);
                }
            }
            assert(i < order);
            lemma_pow2_strictly_increases(i, 31);
            if order < 31 {
                lemma_pow2_strictly_increases(order as nat, 31);
            }
            lemma2_to64();
            lemma_area_step(i);
            lemma_quadrant_bits(dd);
        }
        let rx = (dd / 2) & 1;
        let ry = (dd ^ rx) & 1;
        let ghost q = (dd % 4) as int;
        let ghost p = (x as int, y as int);
        rotate(s, &mut x, &mut y, rx, ry);
        proof {
            let o = orient(s as int, p.0, p.1, quad_rx(q), quad_ry(q));
            lemma_small_mod((s - 1 - p.0) as nat, 0x1_0000_0000);
            lemma_small_mod((s - 1 - p.1) as nat, 0x1_0000_0000);
            assert(x as int == o.0 && y as int == o.1);
            assert(s * rx <= s && s * ry <= s) by (nonlinear_arith)
                requires
                    rx <= 1,
                    ry <= 1,
            ;
        }
        x = x + s * rx;
        y = y + s * ry;
        proof {
            lemma_point_step(i, d as nat);
            lemma_div_denominator(d as int, area(i) as int, 4);
            assert(area(i) * 4 == area(i + 1));
            assert(s * rx == s * quad_rx(q));
            assert(s * ry == s * quad_ry(q));
        }
        dd = dd / 4;
        s = s * 2;
        proof {
            i = i + 1;
        }
    }
    proof {
        if i < order {
            lemma_pow2_strictly_increases(i, order as nat);
        }
    }
    (y, x)
}

/// Convert 2D coordinates (x, y) to a 1D distance `d` along a Hilbert curve
/// of the given `order`.
pub fn xy2d(order: u32, x: u32, y: u32) -> (d: u32)
    requires
        order <= 16,
    ensures
        d as int == spec_xy2d(order as nat, x as int, y as int),
        d < area(order as nat),
{
    proof {
        lemma_index_bounds(order as nat, y as int, x as int);
    }
    let ghost total = curve_index(order as nat, y as int, x as int);
    let (mut x, mut y) = (y, x);
    proof {
        lemma_u32_pow2_no_overflow(order as nat);
        lemma_u32_shl_is_mul(1, order);
        lemma_index_bounds(order as nat, x as int, y as int);
        lemma2_to64();
        if order < 16 {
            lemma_pow2_strictly_increases(2 * order as nat, 32);
        }
        assert(area(16) == 0x1_0000_0000);
    }
    let n = 1u32 << order;
    let mut d = 0u32;
    let mut s = n / 2;
    let ghost mut j: nat = order as nat;
    proof {
        if order > 0 {
            lemma_pow2_unfold(order as nat);
        }
    }
    while s > 0
        invariant
            order <= 16,
            j <= order,
            j == 0 ==> s == 0,
            j > 0 ==> s as nat == pow2((j - 1) as nat),
            d as int + curve_index(j, x as int, y as int) == total,
            total < 0x1_0000_0000,
        decreases s,
    {
        let ghost k = (j - 1) as nat;
        proof {
            if k < 15 {
                lemma_pow2_strictly_increases(k, 15);
            }
            lemma2_to64();
            lemma_bit_test(x, k as u32);
            lemma_bit_test(y, k as u32);
        }
        let rx = if (x & s) > 0 { 1u32 } else { 0 };
        let ry = if (y & s) > 0 { 1u32 } else { 0 };
        let ghost sm = s as int;
        let ghost xo = x as int;
        let ghost yo = y as int;
        let ghost o = orient(sm, xo % sm, yo % sm, rx as int, ry as int);
        proof {
            lemma_quadrant_number_bits(rx, ry);
            lemma_area_is_square(k);
            lemma_index_bounds(k, o.0, o.1);
            assert(curve_index(j, xo, yo) == quad_number(rx as int, ry as int) * area(k)
                + curve_index(k, o.0, o.1));
            assert(s * s <= 0x4000_0000) by (nonlinear_arith)
                requires
                    s <= 0x8000,
            ;
            assert(s * s * (((3 * rx) as u32) ^ ry) <= 3 * (s * s)) by (nonlinear_arith)
                requires
                    ((3 * rx) as u32) ^ ry <= 3,
            ;
            assert(0 <= quad_number(rx as int, ry as int) * area(k)) by (nonlinear_arith)
                requires
                    0 <= quad_number(rx as int, ry as int),
            ;
        }
        d = d + s * s * ((3 * rx) ^ ry);
        rotate(s, &mut x, &mut y, rx, ry);
        proof {
            lemma_rotate_low_bits(k, xo as u32, yo as u32, x, y, rx, ry);
            if k > 0 {
                lemma_index_low_bits(k, x as int, y as int);
                lemma_index_low_bits(k, o.0 + 0, o.1 + 0);
                lemma_small_mod(o.0 as nat, pow2(k));
                lemma_small_mod(o.1 as nat, pow2(k));
            }
            j = k;
            if k > 0 {
                lemma_pow2_unfold(k);
            }
        }
        s = s / 2;
    }
    d
}

/// Rotate/flip a quadrant.
fn rotate(n: u32, x: &mut u32, y: &mut u32, rx: u32, ry: u32)
    ensures
        ry == 0 && rx == 1 ==> *final(x) as int == flip(n, *old(y)) && *final(y) as int == flip(n, *old(x)),
        ry == 0 && rx != 1 ==> *final(x) == *old(y) && *final(y) == *old(x),
        ry != 0 ==> *final(x) == *old(x) && *final(y) == *old(y),
{
    if ry == 0 {
        if rx == 1 {
            *x = n.wrapping_sub(1).wrapping_sub(*x);
            *y = n.wrapping_sub(1).wrapping_sub(*y);
        }
        std::mem::swap(x, y);
    }
}

proof fn lemma_quadrant_bits(d: u32)
    ensures
        ((d / 2) & 1) as int == quad_rx((d % 4) as int),
        ((d ^ ((d / 2) & 1)) & 1) as int == quad_ry((d % 4) as int),
{
    assert((d / 2) & 1 == (if d % 4 >= 2 { 1u32 } else { 0u32 })) by (bit_vector);
    assert((d ^ ((d / 2) & 1)) & 1 == (if d % 4 == 1 || d % 4 == 2 { 1u32 } else { 0u32 })) by (bit_vector);
}

proof fn lemma_quadrant_number_bits(rx: u32, ry: u32)
    requires
        rx <= 1,
        ry <= 1,
    ensures
        (((3 * rx) as u32) ^ ry) as int == quad_number(rx as int, ry as int),
        ((3 * rx) as u32) ^ ry <= 3,
{
    assert(rx <= 1 && ry <= 1 ==> (((3 * rx) as u32) ^ ry) == (if rx == 0 { if ry == 0 { 0u32 } else { 1u32 } } else { if ry == 1 { 2u32 } else { 3u32 } })) by (bit_vector);
}

/// Testing the bit `1 << k` of `x` reads bit `k` of `x`.
proof fn lemma_bit_test(x: u32, k: u32)
    requires
        k < 32,
    ensures
        ((x & (pow2(k as nat) as u32)) > 0) == ((x as nat / pow2(k as nat)) % 2 == 1),
{
    lemma_u32_pow2_no_overflow(k as nat);
    lemma_u32_shl_is_mul(1, k);
    lemma_u32_shr_is_div(x, k);
    assert(((x & (1u32 << k)) > 0) == (((x >> k) & 1) == 1)) by (bit_vector)
        requires
            k < 32,
    ;
    assert((x >> k) & 1 == (x >> k) % 2) by (bit_vector);
}

/// After `rotate`, the low `k` bits of the new coordinates are the oriented
/// low bits of the old ones.
proof fn lemma_rotate_low_bits(k: nat, x0: u32, y0: u32, x1: u32, y1: u32, rx: u32, ry: u32)
    requires
        k < 32,
        ry == 0 && rx == 1 ==> x1 as int == flip(pow2(k) as u32, y0) && y1 as int == flip(pow2(k) as u32, x0),
        ry == 0 && rx != 1 ==> x1 == y0 && y1 == x0,
        ry != 0 ==> x1 == x0 && y1 == y0,
    ensures
        ({
            let s = pow2(k) as int;
            let o = orient(s, x0 as int % s, y0 as int % s, rx as int, ry as int);
            x1 as int % s == o.0 && y1 as int % s == o.1
        }),
{
    let s = pow2(k) as int;
    lemma_pow2_pos(k);
    lemma_u32_pow2_no_overflow(k);
    if ry == 0 && rx == 1 {
        lemma_flip_low_bits(k, x0);
        lemma_flip_low_bits(k, y0);
    }
}

proof fn lemma_flip_low_bits(k: nat, v: u32)
    requires
        k < 32,
    ensures
        flip(pow2(k) as u32, v) % (pow2(k) as int) == pow2(k) as int - 1 - (v as int % pow2(k) as int),
{
    let s = pow2(k) as int;
    lemma_pow2_pos(k);
    lemma_u32_pow2_no_overflow(k);
    let a = s - 1 - v as int;
    lemma_pow2_adds(k, (32 - k) as nat);
    lemma_pow2_pos((32 - k) as nat);
    lemma2_to64();
    assert(s * pow2((32 - k) as nat) == 0x1_0000_0000);
    lemma_mod_mod(a, s, pow2((32 - k) as nat) as int);
    lemma_fundamental_div_mod(v as int, s);
    lemma_mod_pos_bound(v as int, s);
    let vq = v as int / s;
    let vr = v as int % s;
    assert(a == (-vq - 1) * s + (s - 1 - vr) + s) by (nonlinear_arith)
        requires
            a == s - 1 - v,
            v == s * vq + vr,
    ;
    assert(a == (-vq) * s + (s - 1 - vr)) by (nonlinear_arith)
        requires
            a == (-vq - 1) * s + (s - 1 - vr) + s,
    ;
    lemma_split(a, s, -vq, s - 1 - vr);
}

/// One more level of the curve, seen from the lowest bits of `d` upwards.
proof fn lemma_point_step(i: nat, d: nat)
    ensures
        ({
            let m = area(i);
            let p = curve_point(i, d % m);
            let q = ((d / m) % 4) as int;
            let s = pow2(i) as int;
            let o = orient(s, p.0, p.1, quad_rx(q), quad_ry(q));
            curve_point(i + 1, d % area(i + 1)) == (o.0 + s * quad_rx(q), o.1 + s * quad_ry(q))
        }),
{
    lemma_area_step(i);
    let m = area(i) as int;
    lemma_mod_mod(d as int, m, 4);
    lemma_mod_breakdown(d as int, m, 4);
    lemma_mod_pos_bound(d as int, m);
    lemma_mod_pos_bound(d as int / m, 4);
    let dm = d as int % (m * 4);
    lemma_split(dm, m, (d as int / m) % 4, d as int % m);
    lemma_small_mod(((d as int / m) % 4) as nat, 4);
    assert(m * 4 == area(i + 1));
}

} // verus!
