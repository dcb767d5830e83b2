//! Board geometry: nail placement on a circle and the precomputed table of
//! strand paths between every pair of nails.
//!
//! The board places `nail_count` nails evenly on a circle whose diameter is
//! the smallest one whose circumference holds the nails `nail_spacing_pixels`
//! apart, and rasterizes every unordered nail pair once into the exact pixel
//! sequence a straight strand between them would cross.  Both directions of a
//! pair share the one rasterized path, so the table is symmetric by
//! construction.

use crate::util::clamped;
use crate::util::lemma_div_at_least;
use crate::util::lemma_div_below;
use vstd::math::abs;
use vstd::math::max;
use vstd::math::min;
use vstd::prelude::*;

verus! {

/// A nail position: an integer `(x, y)` pixel coordinate on the board.
#[derive(Debug, PartialEq, Eq, Structural, Hash, Copy, Clone)]
pub struct Nail(pub u32, pub u32);

/// The pixels that the line-rasterization of the segment from `(x0, y0)`
/// to `(x1, y1)` crosses, start included, end excluded.  The sequence is
/// determined by the two endpoints alone; the facts that the contracts rely
/// on are stated where the rasterizer is called.
pub uninterp spec fn bres_points(x0: int, y0: int, x1: int, y1: int) -> Seq<(int, int)>;

/// A pixel sequence read as a sequence of integer pairs.
pub open spec fn as_int_pairs(s: Seq<(u32, u32)>) -> Seq<(int, int)> {
    s.map_values(|p: (u32, u32)| (p.0 as int, p.1 as int))
}

/// The Chebyshev distance between two points: the length of the
/// rasterized segment between them, start included, end excluded.
pub open spec fn chebyshev(x0: int, y0: int, x1: int, y1: int) -> int {
    max(abs(x1 - x0) as int, abs(y1 - y0) as int)
}

/// Relies on `bresenham::Bresenham` (v0.1): its iterator yields the grid
/// points of the segment from `start` to `end`, `start` included, `end`
/// excluded, as a function of the two endpoints alone.  Its source walks
/// the driving axis one step per yielded point inside the octant-mapped
/// box, so it yields exactly `max(|dx|, |dy|)` points, the first of them
/// `start`, and every one inside the bounding box of the endpoints.
#[verifier::external_body]
fn bresenham_line(sx: u32, sy: u32, ex: u32, ey: u32) -> (r: Vec<(u32, u32)>)
    ensures
        as_int_pairs(r@) == bres_points(sx as int, sy as int, ex as int, ey as int),
        r@.len() == chebyshev(sx as int, sy as int, ex as int, ey as int),
        r@.len() > 0 ==> r@[0] == (sx, sy),
        forall|k: int|
            0 <= k < r@.len() ==> min(sx as int, ex as int) <= (#[trigger] r@[k]).0 as int <= max(
                sx as int,
                ex as int,
            ) && min(sy as int, ey as int) <= r@[k].1 as int <= max(sy as int, ey as int),
{
    let mut r: Vec<(u32, u32)> = Vec::new();
    for p in bresenham::Bresenham::new((sx as isize, sy as isize), (ex as isize, ey as isize)) {
        r.push((p.0 as u32, p.1 as u32));
    }
    r
}

/// The pixel sequence a strand between nails `a` and `b` crosses: the
/// rasterized segment without its start pixel (the end pixel is already
/// absent), so that consecutive strands along a route never double-count
/// a shared nail pixel.
pub open spec fn strand_path(a: Nail, b: Nail) -> Seq<(int, int)> {
    let bp = bres_points(a.0 as int, a.1 as int, b.0 as int, b.1 as int);
    if bp.len() > 0 {
        bp.drop_first()
    } else {
        bp
    }
}

/// The rasterized strand path between two nails, as stored in the path
/// table: `strand_path(a, b)` in pixel coordinates.
fn line_between(a: Nail, b: Nail) -> (r: Vec<(u32, u32)>)
    ensures
        as_int_pairs(r@) == strand_path(a, b),
        r@.len() <= chebyshev(a.0 as int, a.1 as int, b.0 as int, b.1 as int),
        forall|k: int|
            0 <= k < r@.len() ==> (#[trigger] r@[k]).0 as int <= max(a.0 as int, b.0 as int)
                && r@[k].1 as int <= max(a.1 as int, b.1 as int),
{
    let v = bresenham_line(a.0, a.1, b.0, b.1);
    let mut r: Vec<(u32, u32)> = Vec::new();
    let mut k: usize = 1;
    if v.len() == 0 {
        proof {
            assert(as_int_pairs(v@).len() == 0);
            assert(as_int_pairs(r@) =~= strand_path(a, b));
        }
        return r;
    }
    while k < v.len()
        invariant
            1 <= k <= v@.len(),
            r@.len() == k - 1,
            forall|j: int| 0 <= j < k - 1 ==> r@[j] == v@[j + 1],
        decreases v@.len() - k,
    {
        let p = v[k];
        r.push(p);
        k = k + 1;
    }
    proof {
        let bp = bres_points(a.0 as int, a.1 as int, b.0 as int, b.1 as int);
        assert(bp.len() == v@.len());
        assert(as_int_pairs(r@) =~= strand_path(a, b)) by {
            assert(forall|j: int|
                0 <= j < r@.len() ==> as_int_pairs(r@)[j] == as_int_pairs(v@)[j + 1]);
        }
    }
    r
}

/// Numerator of the fixed-point value of pi used for the board diameter:
/// pi is taken as `PI_Q48_NUM / PI_Q48_DEN` with a 48-bit denominator.
pub const PI_Q48_NUM: u128 = 884279719003555;

/// Denominator (two to the 48th power) of the fixed-point value of pi.
pub const PI_Q48_DEN: u128 = 281474976710656;

/// The board diameter for a given nail spacing and count: the circumference
/// `spacing * count` divided by pi, rounded to the nearest integer pixel.
pub open spec fn diameter_spec(spacing: int, count: int) -> int {
    (2 * spacing * count * (PI_Q48_DEN as int) + (PI_Q48_NUM as int)) / (2 * (PI_Q48_NUM as int))
}

/// The diameter of the smallest board whose circumference holds
/// `nail_count` nails spaced `nail_spacing_pixels` apart.
fn board_diameter(nail_spacing_pixels: u32, nail_count: u32) -> (d: u32)
    requires
        nail_spacing_pixels >= 1,
        nail_count >= 2,
        nail_spacing_pixels * nail_count <= u32::MAX,
    ensures
        d as int == diameter_spec(nail_spacing_pixels as int, nail_count as int),
        1 <= d,
        d as int <= (nail_spacing_pixels as int) * (nail_count as int),
{
    proof {
        let si = nail_spacing_pixels as int;
        let ki = nail_count as int;
        assert(si * ki >= 2) by (nonlinear_arith)
            requires
                si >= 1,
                ki >= 2,
        ;
    }
    let c: u64 = (nail_spacing_pixels as u64) * (nail_count as u64);
    let num: u128 = 2 * (c as u128) * PI_Q48_DEN + PI_Q48_NUM;
    let den: u128 = 2 * PI_Q48_NUM;
    let q: u128 = num / den;
    proof {
        let si = nail_spacing_pixels as int;
        let ki = nail_count as int;
        let ci = c as int;
        let numi = num as int;
        let deni = den as int;
        assert(ci == si * ki);
        assert(2 * si * ki * (PI_Q48_DEN as int) == 2 * ci * (PI_Q48_DEN as int))
            by (nonlinear_arith)
            requires
                ci == si * ki,
        ;
        assert(2 * ci * (PI_Q48_DEN as int) <= 2 * ci * (PI_Q48_NUM as int)) by (nonlinear_arith)
            requires
                ci >= 0,
                (PI_Q48_DEN as int) <= (PI_Q48_NUM as int),
        ;
        assert(numi < (ci + 1) * deni) by (nonlinear_arith)
            requires
                numi == 2 * ci * (PI_Q48_DEN as int) + (PI_Q48_NUM as int),
                deni == 2 * (PI_Q48_NUM as int),
                2 * ci * (PI_Q48_DEN as int) <= 2 * ci * (PI_Q48_NUM as int),
        ;
        lemma_div_below(numi, ci + 1, deni);
        assert(1 * deni <= numi) by (nonlinear_arith)
            requires
                numi == 2 * ci * (PI_Q48_DEN as int) + (PI_Q48_NUM as int),
                deni == 2 * (PI_Q48_NUM as int),
                ci >= 2,
        ;
        lemma_div_at_least(numi, 1, deni);
        assert(q as int == diameter_spec(si, ki));
    }
    q as u32
}

/// Bhaskara's rational approximation of the sine, scaled: for `t` between
/// `0` and `half`, the value of `r * sin(pi * t / half)` computed as
/// `16 t (half - t) r / (5 half^2 - 4 t (half - t))`, rounded to nearest.
pub open spec fn bhaskara(t: int, half: int, r: int) -> int {
    let f = t * (half - t);
    let den = 5 * (half * half) - 4 * f;
    (2 * (16 * f * r) + den) / (2 * den)
}

/// The scaled sine of an angle of `t` units, where a full turn is
/// `2 * half` units: nonnegative on the first half turn, negated on the
/// second.
pub open spec fn sin_units(t: int, half: int, r: int) -> int {
    if t <= half {
        bhaskara(t, half, r)
    } else {
        -bhaskara(t - half, half, r)
    }
}

/// The position of nail `i` of `count` on a board of the given diameter:
/// the point at angle `2 pi i / count` on the centered circle whose radius
/// is half the diameter, clamped into the raster.
pub open spec fn nail_pos_spec(diameter: int, count: int, i: int) -> Nail {
    let half = 2 * count;
    let ts = 4 * i;
    let tc = (4 * i + count) % (4 * count);
    let origin = diameter / 2;
    let r = diameter / 2;
    let x = clamped(origin + sin_units(tc, half, r), 0, diameter - 1);
    let y = clamped(origin + sin_units(ts, half, r), 0, diameter - 1);
    Nail(x as u32, y as u32)
}

/// Bhaskara's scaled sine on the first half turn, never above `r`.
fn bhaskara_round(t: u64, half: u64, r: u64) -> (v: u64)
    requires
        t <= half,
        1 <= half <= 0x4_0000_0000,
        r <= 0x1_0000_0000,
    ensures
        v as int == bhaskara(t as int, half as int, r as int),
        v <= r,
{
    let ti = t as u128;
    let hi = half as u128;
    let ri = r as u128;
    proof {
        let t_ = t as int;
        let h_ = half as int;
        assert(0 <= t_ * (h_ - t_) && t_ * (h_ - t_) <= h_ * h_ && 4 * (t_ * (h_ - t_)) <= h_ * h_
            && 1 <= h_ * h_ <= 0x10_0000_0000_0000_0000) by (nonlinear_arith)
            requires
                0 <= t_ <= h_,
                1 <= h_ <= 0x4_0000_0000,
        ;
    }
    let f: u128 = ti * (hi - ti);
    let h2: u128 = hi * hi;
    let den: u128 = 5 * h2 - 4 * f;
    proof {
        let t_ = t as int;
        let h_ = half as int;
        let r_ = r as int;
        let fi = f as int;
        let deni = den as int;
        assert(fi == t_ * (h_ - t_));
        assert(h2 as int == h_ * h_);
        assert(deni == 5 * (h_ * h_) - 4 * fi);
        assert(deni >= 1);
        assert(16 * fi <= deni);
        assert((16 * fi) * r_ <= deni * r_) by (nonlinear_arith)
            requires
                16 * fi <= deni,
                r_ >= 0,
        ;
        assert(0 <= (16 * fi) * r_) by (nonlinear_arith)
            requires
                fi >= 0,
                r_ >= 0,
        ;
        assert(deni * r_ <= deni * 0x1_0000_0000) by (nonlinear_arith)
            requires
                deni >= 0,
                0 <= r_ <= 0x1_0000_0000,
        ;
        assert(deni * 0x1_0000_0000 <= 0x500_0000_0000_0000_0000 * 0x1_0000_0000) by (
        nonlinear_arith)
            requires
                0 <= deni <= 0x500_0000_0000_0000_0000,
        ;
    }
    let num: u128 = 16 * f * ri;
    proof {
        let r_ = r as int;
        let numi = num as int;
        let deni = den as int;
        assert(numi == (16 * (f as int)) * r_);
        assert(2 * numi + deni < (r_ + 1) * (2 * deni)) by (nonlinear_arith)
            requires
                numi <= deni * r_,
                deni >= 1,
        ;
        lemma_div_below(2 * numi + deni, r_ + 1, 2 * deni);
    }
    let v: u128 = (2 * num + den) / (2 * den);
    v as u64
}

/// The scaled sine of `t` units of a full turn of `2 * half` units.
fn sin_units_round(t: u64, half: u64, r: u64) -> (v: i64)
    requires
        t < 2 * half,
        1 <= half <= 0x4_0000_0000,
        r <= 0x1_0000_0000,
    ensures
        v as int == sin_units(t as int, half as int, r as int),
        -(r as int) <= v as int <= r as int,
{
    if t <= half {
        let b = bhaskara_round(t, half, r);
        b as i64
    } else {
        let b = bhaskara_round(t - half, half, r);
        -(b as i64)
    }
}

/// The position of nail `i` of `count` on a board of the given diameter.
fn nail_position(diameter: u32, count: u32, i: u32) -> (nail: Nail)
    requires
        diameter >= 1,
        count >= 1,
        i < count,
    ensures
        nail == nail_pos_spec(diameter as int, count as int, i as int),
        nail.0 < diameter,
        nail.1 < diameter,
{
    let half: u64 = 2 * (count as u64);
    let ts: u64 = 4 * (i as u64);
    let tc: u64 = (4 * (i as u64) + (count as u64)) % (4 * (count as u64));
    let origin: i64 = (diameter / 2) as i64;
    let r: u64 = (diameter / 2) as u64;
    let sx: i64 = sin_units_round(tc, half, r);
    let sy: i64 = sin_units_round(ts, half, r);
    let hi: i64 = (diameter - 1) as i64;
    let xi: i64 = origin + sx;
    let yi: i64 = origin + sy;
    let x: i64 = if xi < 0 {
        0
    } else if xi > hi {
        hi
    } else {
        xi
    };
    let y: i64 = if yi < 0 {
        0
    } else if yi > hi {
        hi
    } else {
        yi
    };
    Nail(x as u32, y as u32)
}

/// The `count` nail positions, evenly placed around the centered circle.
pub fn place_nails(diameter: u32, nail_count: u32) -> (nails: Vec<Nail>)
    requires
        diameter >= 1,
        nail_count >= 1,
    ensures
        nails@.len() == nail_count,
        forall|k: int|
            0 <= k < nail_count ==> #[trigger] nails@[k] == nail_pos_spec(
                diameter as int,
                nail_count as int,
                k,
            ),
        forall|k: int|
            0 <= k < nail_count ==> (#[trigger] nails@[k]).0 < diameter && nails@[k].1 < diameter,
{
    let mut nails: Vec<Nail> = Vec::new();
    let mut i: u32 = 0;
    while i < nail_count
        invariant
            0 <= i <= nail_count,
            diameter >= 1,
            nail_count >= 1,
            nails@.len() == i,
            forall|k: int|
                0 <= k < i ==> #[trigger] nails@[k] == nail_pos_spec(
                    diameter as int,
                    nail_count as int,
                    k,
                ),
            forall|k: int|
                0 <= k < i ==> (#[trigger] nails@[k]).0 < diameter && nails@[k].1 < diameter,
        decreases nail_count - i,
    {
        let nail = nail_position(diameter, nail_count, i);
        nails.push(nail);
        i = i + 1;
    }
    nails
}

/// The mathematical view of one row of a path table.
pub open spec fn row_view(row: Vec<Vec<(u32, u32)>>) -> Seq<Seq<(u32, u32)>> {
    row@.map_values(|cell: Vec<(u32, u32)>| cell@)
}

/// The mathematical view of a path table: for each ordered nail pair
/// `(i, j)`, the stored pixel sequence of the strand between them.
pub open spec fn table_view(t: Vec<Vec<Vec<(u32, u32)>>>) -> Seq<Seq<Seq<(u32, u32)>>> {
    t@.map_values(|row: Vec<Vec<(u32, u32)>>| row_view(row))
}

/// The table is an `n` by `n` grid.
pub open spec fn table_square(v: Seq<Seq<Seq<(u32, u32)>>>, n: int) -> bool {
    v.len() == n && forall|i: int| 0 <= i < n ==> (#[trigger] v[i]).len() == n
}

/// Both directions of a nail pair hold the same pixel sequence.
pub open spec fn table_symmetric(v: Seq<Seq<Seq<(u32, u32)>>>, n: int) -> bool {
    forall|i: int, j: int| 0 <= i < n && 0 <= j < n ==> #[trigger] v[i][j] == v[j][i]
}

/// A nail has no path to itself.
pub open spec fn table_diag_empty(v: Seq<Seq<Seq<(u32, u32)>>>, n: int) -> bool {
    forall|i: int| 0 <= i < n ==> (#[trigger] v[i][i]).len() == 0
}

/// Each upward pair holds exactly the rasterized strand between its nails.
pub open spec fn table_exact(v: Seq<Seq<Seq<(u32, u32)>>>, nails: Seq<Nail>) -> bool {
    forall|i: int, j: int|
        0 <= i < j < nails.len() ==> as_int_pairs(#[trigger] v[i][j]) == strand_path(
            nails[i],
            nails[j],
        )
}

/// Every stored pixel stays within the bounding box of its two nails.
pub open spec fn table_in_box(v: Seq<Seq<Seq<(u32, u32)>>>, nails: Seq<Nail>) -> bool {
    forall|i: int, j: int, k: int|
        0 <= i < nails.len() && 0 <= j < nails.len() && 0 <= k < v[i][j].len() ==> (#[trigger] v[i][j][k]).0
            as int <= max(nails[i].0 as int, nails[j].0 as int) && v[i][j][k].1 as int <= max(
            nails[i].1 as int,
            nails[j].1 as int,
        )
}

/// Every stored pixel lies inside a `w` by `h` raster.
pub open spec fn table_in_bounds(v: Seq<Seq<Seq<(u32, u32)>>>, n: int, w: int, h: int) -> bool {
    forall|i: int, j: int, k: int|
        0 <= i < n && 0 <= j < n && 0 <= k < v[i][j].len() ==> (#[trigger] v[i][j][k]).0 < w && v[i][j][k].1
            < h
}

/// Every stored path is shorter than the raster is wide: a rasterized
/// segment between two in-raster points crosses fewer pixels than the
/// raster's width.
pub open spec fn table_short(v: Seq<Seq<Seq<(u32, u32)>>>, n: int, w: int) -> bool {
    forall|i: int, j: int| 0 <= i < n && 0 <= j < n ==> (#[trigger] v[i][j]).len() < w
}

/// The full pairwise path table over the given nails: the cell `(i, j)`
/// holds the pixels of the strand from nail `i` to nail `j`, start and end
/// pixel excluded; the two directions of a pair share one rasterization,
/// so the table is symmetric pixel for pixel.
pub fn precompute_paths(nails: &Vec<Nail>) -> (table: Vec<Vec<Vec<(u32, u32)>>>)
    ensures
        table_square(table_view(table), nails@.len() as int),
        table_symmetric(table_view(table), nails@.len() as int),
        table_diag_empty(table_view(table), nails@.len() as int),
        table_exact(table_view(table), nails@),
        table_in_box(table_view(table), nails@),
        forall|i: int, j: int|
            0 <= i < nails@.len() && 0 <= j < nails@.len() ==> (#[trigger] table_view(
                table,
            )[i][j]).len() <= chebyshev(
                nails@[i].0 as int,
                nails@[i].1 as int,
                nails@[j].0 as int,
                nails@[j].1 as int,
            ),
{
    let n = nails.len();
    let mut table: Vec<Vec<Vec<(u32, u32)>>> = Vec::new();
    let mut i: usize = 0;
    while i < n
        invariant
            0 <= i <= n,
            n == nails@.len(),
            table_view(table).len() == i,
            forall|a: int| 0 <= a < i ==> (#[trigger] table_view(table)[a]).len() == n,
            forall|a: int, b: int|
                0 <= b < a < i ==> #[trigger] table_view(table)[a][b] == table_view(table)[b][a],
            forall|a: int| 0 <= a < i ==> (#[trigger] table_view(table)[a][a]).len() == 0,
            forall|a: int, b: int|
                0 <= a < i && a < b < n ==> as_int_pairs(#[trigger] table_view(table)[a][b])
                    == strand_path(nails@[a], nails@[b]),
            forall|a: int, b: int, k: int|
                0 <= a < i && 0 <= b < n && 0 <= k < table_view(table)[a][b].len() ==> (#[trigger] table_view(
                    table,
                )[a][b][k]).0 as int <= max(nails@[a].0 as int, nails@[b].0 as int) && table_view(
                    table,
                )[a][b][k].1 as int <= max(nails@[a].1 as int, nails@[b].1 as int),
            forall|a: int, b: int|
                0 <= a < i && 0 <= b < n ==> (#[trigger] table_view(table)[a][b]).len()
                    <= chebyshev(
                    nails@[a].0 as int,
                    nails@[a].1 as int,
                    nails@[b].0 as int,
                    nails@[b].1 as int,
                ),
        decreases n - i,
    {
        let mut row: Vec<Vec<(u32, u32)>> = Vec::new();
        let mut j: usize = 0;
        while j < n
            invariant
                0 <= j <= n,
                0 <= i < n,
                n == nails@.len(),
                table_view(table).len() == i,
                forall|a: int| 0 <= a < i ==> (#[trigger] table_view(table)[a]).len() == n,
                forall|a: int, b: int|
                    0 <= b < a < i ==> #[trigger] table_view(table)[a][b] == table_view(
                        table,
                    )[b][a],
                forall|a: int| 0 <= a < i ==> (#[trigger] table_view(table)[a][a]).len() == 0,
                forall|a: int, b: int|
                    0 <= a < i && a < b < n ==> as_int_pairs(#[trigger] table_view(table)[a][b])
                        == strand_path(nails@[a], nails@[b]),
                forall|a: int, b: int, k: int|
                    0 <= a < i && 0 <= b < n && 0 <= k < table_view(table)[a][b].len() ==> (
                    #[trigger] table_view(table)[a][b][k]).0 as int <= max(
                        nails@[a].0 as int,
                        nails@[b].0 as int,
                    ) && table_view(table)[a][b][k].1 as int <= max(
                        nails@[a].1 as int,
                        nails@[b].1 as int,
                    ),
                forall|a: int, b: int|
                    0 <= a < i && 0 <= b < n ==> (#[trigger] table_view(table)[a][b]).len()
                        <= chebyshev(
                        nails@[a].0 as int,
                        nails@[a].1 as int,
                        nails@[b].0 as int,
                        nails@[b].1 as int,
                    ),
                row@.len() == j,
                forall|b: int|
                    0 <= b < j && b < i ==> (#[trigger] row@[b])@ == table_view(table)[b][i as int],
                i < j ==> row@[i as int]@.len() == 0,
                forall|b: int|
                    i < b < j ==> as_int_pairs((#[trigger] row@[b])@) == strand_path(
                        nails@[i as int],
                        nails@[b],
                    ),
                forall|b: int, k: int|
                    0 <= b < j && i <= b && 0 <= k < row@[b]@.len() ==> ((#[trigger] row@[b]@[k])).0
                        as int <= max(nails@[i as int].0 as int, nails@[b].0 as int) && row@[b]@[k].1
                        as int <= max(nails@[i as int].1 as int, nails@[b].1 as int),
                forall|b: int|
                    0 <= b < j ==> (#[trigger] row@[b])@.len() <= chebyshev(
                        nails@[i as int].0 as int,
                        nails@[i as int].1 as int,
                        nails@[b].0 as int,
                        nails@[b].1 as int,
                    ),
            decreases n - j,
        {
            if j < i {
                proof {
                    assert(table_view(table)[j as int].len() == n);
                    assert(table@[j as int]@.len() == n);
                }
                let src = &table[j][i];
                let cell = copy_pixels(src);
                proof {
                    assert(cell@ == table_view(table)[j as int][i as int]);
                    assert(chebyshev(
                        nails@[i as int].0 as int,
                        nails@[i as int].1 as int,
                        nails@[j as int].0 as int,
                        nails@[j as int].1 as int,
                    ) == chebyshev(
                        nails@[j as int].0 as int,
                        nails@[j as int].1 as int,
                        nails@[i as int].0 as int,
                        nails@[i as int].1 as int,
                    ));
                }
                row.push(cell);
            } else if j == i {
                let cell: Vec<(u32, u32)> = Vec::new();
                row.push(cell);
            } else {
                let cell = line_between(nails[i], nails[j]);
                row.push(cell);
            }
            j = j + 1;
        }
        let ghost vpre = table_view(table);
        table.push(row);
        proof {
            assert(table_view(table) =~= vpre.push(row_view(row)));
            assert forall|b: int| 0 <= b < n implies #[trigger] table_view(table)[i as int][b]
                == row@[b]@ by {
                assert(table_view(table)[i as int] == row_view(row));
            }
        }
        i = i + 1;
    }
    proof {
        let v = table_view(table);
        let nn = nails@.len() as int;
        assert(table_symmetric(v, nn)) by {
            assert forall|a: int, b: int| 0 <= a < nn && 0 <= b < nn implies #[trigger] v[a][b]
                == v[b][a] by {
                if a < b {
                    assert(v[b][a] == v[a][b]);
                }
            }
        }
    }
    table
}

/// The circular board: its raster size, its nails, and the precomputed
/// path table between every pair of nails.
pub struct Board {
    pub width: u32,
    pub height: u32,
    pub nails: Vec<Nail>,
    pub paths: Vec<Vec<Vec<(u32, u32)>>>,
}

impl Board {
    /// Structural soundness of a board: a square raster, at least two
    /// nails all inside it, and a complete, symmetric path table whose
    /// pixels all lie inside the raster.
    pub open spec fn wf(&self) -> bool {
        let v = table_view(self.paths);
        let n = self.nails@.len() as int;
        &&& self.width == self.height
        &&& self.width >= 1
        &&& n >= 2
        &&& forall|k: int|
            0 <= k < n ==> (#[trigger] self.nails@[k]).0 < self.width && self.nails@[k].1
                < self.height
        &&& table_square(v, n)
        &&& table_symmetric(v, n)
        &&& table_diag_empty(v, n)
        &&& table_in_bounds(v, n, self.width as int, self.height as int)
        &&& table_short(v, n, self.width as int)
    }

    /// A board for `nail_count` nails placed `nail_spacing_pixels` apart:
    /// the smallest circle whose circumference holds them, rounded to the
    /// nearest pixel, with the full path table rasterized once.
    pub fn new(nail_spacing_pixels: u32, nail_count: u32) -> (board: Board)
        requires
            nail_spacing_pixels >= 1,
            nail_count >= 2,
            nail_spacing_pixels * nail_count <= u32::MAX,
        ensures
            board.wf(),
            board.width as int == diameter_spec(nail_spacing_pixels as int, nail_count as int),
            board.width as int <= (nail_spacing_pixels as int) * (nail_count as int),
            board.height == board.width,
            board.nails@.len() == nail_count,
            forall|k: int|
                0 <= k < nail_count ==> #[trigger] board.nails@[k] == nail_pos_spec(
                    board.width as int,
                    nail_count as int,
                    k,
                ),
            table_exact(table_view(board.paths), board.nails@),
    {
        let diameter = board_diameter(nail_spacing_pixels, nail_count);
        let nails = place_nails(diameter, nail_count);
        let paths = precompute_paths(&nails);
        let board = Board { width: diameter, height: diameter, nails, paths };
        proof {
            let v = table_view(board.paths);
            let n = board.nails@.len() as int;
            assert(table_in_bounds(v, n, diameter as int, diameter as int)) by {
                assert forall|i: int, j: int, k: int|
                    0 <= i < n && 0 <= j < n && 0 <= k < v[i][j].len() implies (#[trigger] v[i][j][k]).0
                    < diameter && v[i][j][k].1 < diameter by {
                    assert(v[i][j][k].0 as int <= max(
                        board.nails@[i].0 as int,
                        board.nails@[j].0 as int,
                    ));
                    assert(v[i][j][k].1 as int <= max(
                        board.nails@[i].1 as int,
                        board.nails@[j].1 as int,
                    ));
                }
            }
            assert(table_short(v, n, diameter as int)) by {
                assert forall|i: int, j: int| 0 <= i < n && 0 <= j < n implies (#[trigger] v[i][j]).len()
                    < diameter by {
                    assert(v[i][j].len() <= chebyshev(
                        board.nails@[i].0 as int,
                        board.nails@[i].1 as int,
                        board.nails@[j].0 as int,
                        board.nails@[j].1 as int,
                    ));
                    assert(board.nails@[i].0 < diameter && board.nails@[i].1 < diameter);
                    assert(board.nails@[j].0 < diameter && board.nails@[j].1 < diameter);
                }
            }
        }
        board
    }

    pub fn width(&self) -> (w: u32)
        ensures
            w == self.width,
    {
        self.width
    }

    pub fn height(&self) -> (h: u32)
        ensures
            h == self.height,
    {
        self.height
    }

    /// The raster size of the board.
    pub fn dimensions(&self) -> (d: crate::util::Dimensions)
        ensures
            d.width == self.width,
            d.height == self.height,
    {
        crate::util::Dimensions::new(self.width, self.height)
    }

    pub fn nails(&self) -> (nails: &Vec<Nail>)
        ensures
            nails == &self.nails,
    {
        &self.nails
    }

    pub fn paths(&self) -> (paths: &Vec<Vec<Vec<(u32, u32)>>>)
        ensures
            paths == &self.paths,
    {
        &self.paths
    }
}

/// Path symmetry: on a sound board, the path from nail `i` to nail `j`
/// and the path from `j` back to `i` traverse the same pixels — the same
/// sequence, and so the same set.
pub proof fn lemma_path_symmetry(board: Board, i: int, j: int)
    requires
        board.wf(),
        0 <= i < board.nails@.len(),
        0 <= j < board.nails@.len(),
    ensures
        table_view(board.paths)[i][j] == table_view(board.paths)[j][i],
        table_view(board.paths)[i][j].to_set() == table_view(board.paths)[j][i].to_set(),
{
}

/// A copy of a stored pixel path.
pub(crate) fn copy_pixels(v: &Vec<(u32, u32)>) -> (r: Vec<(u32, u32)>)
    ensures
        r@ == v@,
{
    let mut r: Vec<(u32, u32)> = Vec::new();
    let mut k: usize = 0;
    while k < v.len()
        invariant
            0 <= k <= v@.len(),
            r@ =~= v@.subrange(0, k as int),
        decreases v@.len() - k,
    {
        let p = v[k];
        r.push(p);
        k = k + 1;
    }
    proof {
        assert(r@ =~= v@);
    }
    r
}

} // verus!
