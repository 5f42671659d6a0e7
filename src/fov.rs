//! Field of view by recursive shadowcasting.
//!
//! The scan covers the eight octants around the origin. Each octant is scanned
//! as the canonical one (rows above the origin, columns from the far left up to
//! the vertical), mapped onto the grid by an `Octant` transform. A row `i` at
//! offset `dx` covers the slopes between `(dx + 1/2) / (i + 1/2)` and
//! `(dx - 1/2) / (i - 1/2)`, taken with the sign flipped so that they are read as
//! positive; slopes are kept as exact fractions.

use vstd::prelude::*;

use crate::geometry::{dist_sq, Point};
use crate::map::{TileKind, WorldMap};

verus! {

/// A linear map from the canonical octant onto one of the eight octants.
#[derive(Clone, Copy, Debug, PartialEq, Eq, Structural)]
pub struct Octant {
    pub xx: i128,
    pub xy: i128,
    pub yx: i128,
    pub yy: i128,
}

/// A fraction `num / den` with a positive denominator.
#[derive(Clone, Copy, Debug, PartialEq, Eq, Structural)]
pub struct Slope {
    pub num: i128,
    pub den: i128,
}

/// Bound on the numerators and denominators that occur.
pub const SLOPE_BOUND: i128 = 0x4_0000_0000;

impl Slope {
    pub open spec fn view(&self) -> (int, int) {
        (self.num as int, self.den as int)
    }

    pub open spec fn bounded(&self) -> bool {
        -SLOPE_BOUND <= self.num <= SLOPE_BOUND && 1 <= self.den <= SLOPE_BOUND
    }
}

/// `a < b` for fractions with positive denominators.
pub open spec fn slope_lt(a: (int, int), b: (int, int)) -> bool {
    a.0 * b.1 < b.0 * a.1
}

/// The slope where the cell at column `dx` of row `i` starts.
pub open spec fn left_slope(i: int, dx: int) -> (int, int) {
    (1 - 2 * dx, 2 * i - 1)
}

/// The slope where the cell at column `dx` of row `i` ends.
pub open spec fn right_slope(i: int, dx: int) -> (int, int) {
    (-2 * dx - 1, 2 * i + 1)
}

/// The transform of the `k`-th octant.
pub open spec fn octant(k: int) -> Octant {
    if k == 0 {
        Octant { xx: 1, xy: 0, yx: 0, yy: 1 }
    } else if k == 1 {
        Octant { xx: 0, xy: 1, yx: 1, yy: 0 }
    } else if k == 2 {
        Octant { xx: 0, xy: -1i128, yx: 1, yy: 0 }
    } else if k == 3 {
        Octant { xx: -1i128, xy: 0, yx: 0, yy: 1 }
    } else if k == 4 {
        Octant { xx: -1i128, xy: 0, yx: 0, yy: -1i128 }
    } else if k == 5 {
        Octant { xx: 0, xy: -1i128, yx: -1i128, yy: 0 }
    } else if k == 6 {
        Octant { xx: 0, xy: 1, yx: -1i128, yy: 0 }
    } else {
        Octant { xx: 1, xy: 0, yx: 0, yy: -1i128 }
    }
}

fn octant_exec(k: usize) -> (r: Octant)
    requires
        k < 8,
    ensures
        r == octant(k as int),
{
    if k == 0 {
        Octant { xx: 1, xy: 0, yx: 0, yy: 1 }
    } else if k == 1 {
        Octant { xx: 0, xy: 1, yx: 1, yy: 0 }
    } else if k == 2 {
        Octant { xx: 0, xy: -1, yx: 1, yy: 0 }
    } else if k == 3 {
        Octant { xx: -1, xy: 0, yx: 0, yy: 1 }
    } else if k == 4 {
        Octant { xx: -1, xy: 0, yx: 0, yy: -1 }
    } else if k == 5 {
        Octant { xx: 0, xy: -1, yx: -1, yy: 0 }
    } else if k == 6 {
        Octant { xx: 0, xy: 1, yx: -1, yy: 0 }
    } else {
        Octant { xx: 1, xy: 0, yx: 0, yy: -1 }
    }
}

pub open spec fn unit_octant(oct: Octant) -> bool {
    exists|k: int| 0 <= k < 8 && oct == octant(k)
}

/// What a scan carries from cell to cell: the current start slope, whether the
/// previous cell was opaque, the slope to resume from, and the cells seen.
pub type ScanState = ((int, int), bool, (int, int), Set<Point>);

/// The parameters of one scan: map, origin, radius and octant.
pub struct Scan {
    pub ox: int,
    pub oy: int,
    pub radius: int,
}

/// One octant scan starting at `row` with the cone `[end, start]`, adding what it
/// sees to `vis`.
pub open spec fn cast(m: WorldMap, s: Scan, oct: Octant, row: int, start: (int, int), end: (int, int), vis: Set<Point>) -> Set<Point>
    decreases s.radius + 1 - row, 3int, 0int,
{
    if row < 1 || row > s.radius + 1 || slope_lt(start, end) {
        vis
    } else {
        scan_rows(m, s, oct, end, row, (start, false, start, vis))
    }
}

/// The rows from `i` on, until one ends on an opaque cell or the radius is passed.
pub open spec fn scan_rows(m: WorldMap, s: Scan, oct: Octant, end: (int, int), i: int, st: ScanState) -> Set<Point>
    decreases s.radius + 1 - i, 2int, 0int,
{
    if i < 1 || i > s.radius || st.1 {
        st.3
    } else {
        scan_rows(m, s, oct, end, i + 1, scan_cells(m, s, oct, end, i, -i, st))
    }
}

/// The cells of row `i` from column `dx` to the vertical.
pub open spec fn scan_cells(m: WorldMap, s: Scan, oct: Octant, end: (int, int), i: int, dx: int, st: ScanState) -> ScanState
    decreases s.radius + 1 - i, 1int, 1 - dx,
{
    if i < 1 || i > s.radius || dx > 0 {
        st
    } else {
        let (start, blocked, next, vis) = st;
        let dy = -i;
        let l = left_slope(i, dx);
        let rs = right_slope(i, dx);
        if slope_lt(start, rs) {
            scan_cells(m, s, oct, end, i, dx + 1, st)
        } else if slope_lt(l, end) {
            st
        } else {
            let ax = s.ox + dx * oct.xx + dy * oct.xy;
            let ay = s.oy + dx * oct.yx + dy * oct.yy;
            if ax < 0 || ay < 0 || ax >= m.spec_width() || ay >= m.spec_height() {
                scan_cells(m, s, oct, end, i, dx + 1, st)
            } else {
                let p = Point { x: ax as u32, y: ay as u32 };
                let vis2 = if dx * dx + dy * dy < s.radius * s.radius {
                    vis.insert(p)
                } else {
                    vis
                };
                let solid = m.tile(p).kind == TileKind::Wall;
                if blocked {
                    if solid {
                        scan_cells(m, s, oct, end, i, dx + 1, (start, true, rs, vis2))
                    } else {
                        scan_cells(m, s, oct, end, i, dx + 1, (next, false, next, vis2))
                    }
                } else if solid {
                    let vis3 = cast(m, s, oct, i + 1, start, l, vis2);
                    scan_cells(m, s, oct, end, i, dx + 1, (start, true, rs, vis3))
                } else {
                    scan_cells(m, s, oct, end, i, dx + 1, (start, false, next, vis2))
                }
            }
        }
    }
}

/// The first `k` octant scans, each over the full cone, starting from `vis`.
pub open spec fn scan_octants(m: WorldMap, s: Scan, k: int, vis: Set<Point>) -> Set<Point>
    decreases k,
{
    if k <= 0 {
        vis
    } else {
        cast(m, s, octant(k - 1), 1, (1, 1), (0, 1), scan_octants(m, s, k - 1, vis))
    }
}

/// The tiles seen from `(x, y)` within `radius`: the origin itself where it is on
/// the map and the radius is positive, and whatever the eight scans reach.
pub open spec fn field_of_view(m: WorldMap, x: u32, y: u32, radius: u32) -> Set<Point> {
    let o = Point { x, y };
    let init = if radius > 0 && m.in_bounds(o) {
        Set::empty().insert(o)
    } else {
        Set::empty()
    };
    scan_octants(m, Scan { ox: x as int, oy: y as int, radius: radius as int }, 8, init)
}

/// `after` extends `before` with tiles that are on the map and strictly closer to
/// the origin than the radius.
pub open spec fn grows_within(m: WorldMap, s: Scan, before: Set<Point>, after: Set<Point>) -> bool {
    &&& before.subset_of(after)
    &&& forall|q: Point|
        #[trigger] after.contains(q) && !before.contains(q) ==> m.in_bounds(q) && dist_sq(
            q,
            Point { x: s.ox as u32, y: s.oy as u32 },
        ) < s.radius * s.radius
}

/// Each octant transform keeps distances.
proof fn lemma_octant_norm(oct: Octant, dx: int, dy: int)
    requires
        unit_octant(oct),
    ensures
        (dx * oct.xx + dy * oct.xy) * (dx * oct.xx + dy * oct.xy) + (dx * oct.yx + dy * oct.yy) * (dx
            * oct.yx + dy * oct.yy) == dx * dx + dy * dy,
{
    let k = choose|k: int| 0 <= k < 8 && oct == octant(k);
    let (a, b, c, d) = (oct.xx as int, oct.xy as int, oct.yx as int, oct.yy as int);
    assert((a == 0 && d == 0 && (b == 1 || b == -1) && (c == 1 || c == -1)) || (b == 0 && c == 0
        && (a == 1 || a == -1) && (d == 1 || d == -1)));
    assert((dx * a + dy * b) * (dx * a + dy * b) + (dx * c + dy * d) * (dx * c + dy * d) == dx * dx
        + dy * dy) by (nonlinear_arith)
        requires
            (a == 0 && d == 0 && (b == 1 || b == -1) && (c == 1 || c == -1)) || (b == 0 && c == 0
                && (a == 1 || a == -1) && (d == 1 || d == -1)),
    ;
}

proof fn lemma_cast_grows(m: WorldMap, s: Scan, oct: Octant, row: int, start: (int, int), end: (int, int), vis: Set<Point>)
    requires
        unit_octant(oct),
        0 <= s.ox <= u32::MAX,
        0 <= s.oy <= u32::MAX,
    ensures
        grows_within(m, s, vis, cast(m, s, oct, row, start, end, vis)),
    decreases s.radius + 1 - row, 3int, 0int,
{
    if !(row < 1 || row > s.radius + 1 || slope_lt(start, end)) {
        lemma_rows_grow(m, s, oct, end, row, (start, false, start, vis));
    }
}

proof fn lemma_rows_grow(m: WorldMap, s: Scan, oct: Octant, end: (int, int), i: int, st: ScanState)
    requires
        unit_octant(oct),
        0 <= s.ox <= u32::MAX,
        0 <= s.oy <= u32::MAX,
    ensures
        grows_within(m, s, st.3, scan_rows(m, s, oct, end, i, st)),
    decreases s.radius + 1 - i, 2int, 0int,
{
    if !(i < 1 || i > s.radius || st.1) {
        let st2 = scan_cells(m, s, oct, end, i, -i, st);
        lemma_cells_grow(m, s, oct, end, i, -i, st);
        lemma_rows_grow(m, s, oct, end, i + 1, st2);
    }
}

proof fn lemma_cells_grow(m: WorldMap, s: Scan, oct: Octant, end: (int, int), i: int, dx: int, st: ScanState)
    requires
        unit_octant(oct),
        0 <= s.ox <= u32::MAX,
        0 <= s.oy <= u32::MAX,
    ensures
        grows_within(m, s, st.3, scan_cells(m, s, oct, end, i, dx, st).3),
    decreases s.radius + 1 - i, 1int, 1 - dx,
{
    if !(i < 1 || i > s.radius || dx > 0) {
        let (start, blocked, next, vis) = st;
        let dy = -i;
        let l = left_slope(i, dx);
        let rs = right_slope(i, dx);
        if slope_lt(start, rs) {
            lemma_cells_grow(m, s, oct, end, i, dx + 1, st);
        } else if slope_lt(l, end) {
        } else {
            let ax = s.ox + dx * oct.xx + dy * oct.xy;
            let ay = s.oy + dx * oct.yx + dy * oct.yy;
            if ax < 0 || ay < 0 || ax >= m.spec_width() || ay >= m.spec_height() {
                lemma_cells_grow(m, s, oct, end, i, dx + 1, st);
            } else {
                let p = Point { x: ax as u32, y: ay as u32 };
                let o = Point { x: s.ox as u32, y: s.oy as u32 };
                let vis2 = if dx * dx + dy * dy < s.radius * s.radius {
                    vis.insert(p)
                } else {
                    vis
                };
                lemma_octant_norm(oct, dx, dy);
                m.lemma_dims();
                assert(m.in_bounds(p));
                assert(p.x - o.x == dx * oct.xx + dy * oct.xy);
                assert(p.y - o.y == dx * oct.yx + dy * oct.yy);
                let da = dx * oct.xx + dy * oct.xy;
                let db = dx * oct.yx + dy * oct.yy;
                assert((p.x - o.x) * (p.x - o.x) == da * da);
                assert((p.y - o.y) * (p.y - o.y) == db * db);
                assert(da * da + db * db >= 0) by (nonlinear_arith);
                assert(dist_sq(p, o) == dx * dx + dy * dy);
                assert(grows_within(m, s, vis, vis2));
                let solid = m.tile(p).kind == TileKind::Wall;
                if blocked {
                    if solid {
                        lemma_cells_grow(m, s, oct, end, i, dx + 1, (start, true, rs, vis2));
                    } else {
                        lemma_cells_grow(m, s, oct, end, i, dx + 1, (next, false, next, vis2));
                    }
                } else if solid {
                    let vis3 = cast(m, s, oct, i + 1, start, l, vis2);
                    lemma_cast_grows(m, s, oct, i + 1, start, l, vis2);
                    lemma_cells_grow(m, s, oct, end, i, dx + 1, (start, true, rs, vis3));
                } else {
                    lemma_cells_grow(m, s, oct, end, i, dx + 1, (start, false, next, vis2));
                }
            }
        }
    }
}

proof fn lemma_octants_grow(m: WorldMap, s: Scan, k: int, vis: Set<Point>)
    requires
        k <= 8,
        0 <= s.ox <= u32::MAX,
        0 <= s.oy <= u32::MAX,
    ensures
        grows_within(m, s, vis, scan_octants(m, s, k, vis)),
    decreases k,

{
    if k > 0 {
        lemma_octants_grow(m, s, k - 1, vis);
        assert(0 <= k - 1 < 8 ==> unit_octant(octant(k - 1)));
        lemma_cast_grows(m, s, octant(k - 1), 1, (1, 1), (0, 1), scan_octants(m, s, k - 1, vis));
    }
}

/// The field of view holds the origin whenever the origin is on the map and the
/// radius is positive; every tile in it is on the map and strictly closer to the
/// origin than the radius.
pub proof fn lemma_field_of_view_bounds(m: WorldMap, x: u32, y: u32, radius: u32)
    ensures
        (radius > 0 && m.in_bounds(Point { x, y })) ==> field_of_view(m, x, y, radius).contains(
            Point { x, y },
        ),
        forall|p: Point| #[trigger]
            field_of_view(m, x, y, radius).contains(p) ==> m.in_bounds(p) && dist_sq(p, Point { x, y })
                < radius * radius,
{
    let o = Point { x, y };
    let s = Scan { ox: x as int, oy: y as int, radius: radius as int };
    let init = if radius > 0 && m.in_bounds(o) {
        Set::empty().insert(o)
    } else {
        Set::empty()
    };
    lemma_octants_grow(m, s, 8, init);
    assert(dist_sq(o, o) == 0);
    assert(radius > 0 ==> radius * radius > 0) by (nonlinear_arith);
}

/// Two maps of the same size with the same tile kinds.
pub open spec fn same_layout(m1: WorldMap, m2: WorldMap) -> bool {
    &&& m1.spec_width() == m2.spec_width()
    &&& m1.spec_height() == m2.spec_height()
    &&& forall|p: Point| #[trigger] m1.in_bounds(p) ==> m1.tile(p).kind == m2.tile(p).kind
}

proof fn lemma_cast_layout(m1: WorldMap, m2: WorldMap, s: Scan, oct: Octant, row: int, start: (int, int), end: (int, int), vis: Set<Point>)
    requires
        same_layout(m1, m2),
    ensures
        cast(m1, s, oct, row, start, end, vis) == cast(m2, s, oct, row, start, end, vis),
    decreases s.radius + 1 - row, 3int, 0int,
{
    if !(row < 1 || row > s.radius + 1 || slope_lt(start, end)) {
        lemma_rows_layout(m1, m2, s, oct, end, row, (start, false, start, vis));
    }
}

proof fn lemma_rows_layout(m1: WorldMap, m2: WorldMap, s: Scan, oct: Octant, end: (int, int), i: int, st: ScanState)
    requires
        same_layout(m1, m2),
    ensures
        scan_rows(m1, s, oct, end, i, st) == scan_rows(m2, s, oct, end, i, st),
    decreases s.radius + 1 - i, 2int, 0int,
{
    if !(i < 1 || i > s.radius || st.1) {
        lemma_cells_layout(m1, m2, s, oct, end, i, -i, st);
        lemma_rows_layout(m1, m2, s, oct, end, i + 1, scan_cells(m1, s, oct, end, i, -i, st));
    }
}

proof fn lemma_cells_layout(m1: WorldMap, m2: WorldMap, s: Scan, oct: Octant, end: (int, int), i: int, dx: int, st: ScanState)
    requires
        same_layout(m1, m2),
    ensures
        scan_cells(m1, s, oct, end, i, dx, st) == scan_cells(m2, s, oct, end, i, dx, st),
    decreases s.radius + 1 - i, 1int, 1 - dx,
{
    if !(i < 1 || i > s.radius || dx > 0) {
        let (start, blocked, next, vis) = st;
        let dy = -i;
        let l = left_slope(i, dx);
        let rs = right_slope(i, dx);
        if slope_lt(start, rs) {
            lemma_cells_layout(m1, m2, s, oct, end, i, dx + 1, st);
        } else if slope_lt(l, end) {
        } else {
            let ax = s.ox + dx * oct.xx + dy * oct.xy;
            let ay = s.oy + dx * oct.yx + dy * oct.yy;
            if ax < 0 || ay < 0 || ax >= m1.spec_width() || ay >= m1.spec_height() {
                lemma_cells_layout(m1, m2, s, oct, end, i, dx + 1, st);
            } else {
                let p = Point { x: ax as u32, y: ay as u32 };
                m1.lemma_dims();
                assert(m1.in_bounds(p));
                let vis2 = if dx * dx + dy * dy < s.radius * s.radius {
                    vis.insert(p)
                } else {
                    vis
                };
                let solid = m1.tile(p).kind == TileKind::Wall;
                if blocked {
                    if solid {
                        lemma_cells_layout(m1, m2, s, oct, end, i, dx + 1, (start, true, rs, vis2));
                    } else {
                        lemma_cells_layout(m1, m2, s, oct, end, i, dx + 1, (next, false, next, vis2));
                    }
                } else if solid {
                    let vis3 = cast(m1, s, oct, i + 1, start, l, vis2);
                    lemma_cast_layout(m1, m2, s, oct, i + 1, start, l, vis2);
                    lemma_cells_layout(m1, m2, s, oct, end, i, dx + 1, (start, true, rs, vis3));
                } else {
                    lemma_cells_layout(m1, m2, s, oct, end, i, dx + 1, (start, false, next, vis2));
                }
            }
        }
    }
}

proof fn lemma_octants_layout(m1: WorldMap, m2: WorldMap, s: Scan, k: int, vis: Set<Point>)
    requires
        same_layout(m1, m2),
    ensures
        scan_octants(m1, s, k, vis) == scan_octants(m2, s, k, vis),
    decreases k,
{
    if k > 0 {
        lemma_octants_layout(m1, m2, s, k - 1, vis);
        lemma_cast_layout(m1, m2, s, octant(k - 1), 1, (1, 1), (0, 1), scan_octants(m1, s, k - 1, vis));
    }
}

/// The field of view depends on the size of the map and the kinds of its tiles
/// alone, not on their flags.
pub proof fn lemma_field_of_view_layout(m1: WorldMap, m2: WorldMap, x: u32, y: u32, radius: u32)
    requires
        same_layout(m1, m2),
    ensures
        field_of_view(m1, x, y, radius) == field_of_view(m2, x, y, radius),
{
    let o = Point { x, y };
    let init = if radius > 0 && m1.in_bounds(o) {
        Set::empty().insert(o)
    } else {
        Set::empty()
    };
    lemma_octants_layout(m1, m2, Scan { ox: x as int, oy: y as int, radius: radius as int }, 8, init);
}

/// The first cell of the first row of an octant scan is always seen, whatever the
/// map holds, where it is on the map and within the radius.
proof fn lemma_first_cell_seen(m: WorldMap, s: Scan, oct: Octant, vis: Set<Point>)
    requires
        unit_octant(oct),
        0 <= s.ox <= u32::MAX,
        0 <= s.oy <= u32::MAX,
        s.radius >= 2,
        0 <= s.ox - oct.xx - oct.xy < m.spec_width(),
        0 <= s.oy - oct.yx - oct.yy < m.spec_height(),
    ensures
        cast(m, s, oct, 1, (1, 1), (0, 1), vis).contains(
            Point { x: (s.ox - oct.xx - oct.xy) as u32, y: (s.oy - oct.yx - oct.yy) as u32 },
        ),
{
    let p = Point { x: (s.ox - oct.xx - oct.xy) as u32, y: (s.oy - oct.yx - oct.yy) as u32 };
    let st0: ScanState = ((1, 1), false, (1, 1), vis);
    let st1 = scan_cells(m, s, oct, (0, 1), 1, -1, st0);
    assert(s.radius * s.radius >= 4) by (nonlinear_arith)
        requires
            s.radius >= 2,
    ;
    assert(!slope_lt((1, 1), right_slope(1, -1)));
    assert(!slope_lt(left_slope(1, -1), (0, 1)));
    let vis2 = vis.insert(p);
    let solid = m.tile(p).kind == TileKind::Wall;
    let st_mid: ScanState = if solid {
        ((1, 1), true, right_slope(1, -1), cast(m, s, oct, 2, (1, 1), left_slope(1, -1), vis2))
    } else {
        ((1, 1), false, (1, 1), vis2)
    };
    assert(st1 == scan_cells(m, s, oct, (0, 1), 1, 0, st_mid));
    if solid {
        lemma_cast_grows(m, s, oct, 2, (1, 1), left_slope(1, -1), vis2);
    }
    assert(st_mid.3.contains(p));
    lemma_cells_grow(m, s, oct, (0, 1), 1, 0, st_mid);
    lemma_rows_grow(m, s, oct, (0, 1), 2, st1);
    assert(cast(m, s, oct, 1, (1, 1), (0, 1), vis) == scan_rows(m, s, oct, (0, 1), 1, st0));
    assert(scan_rows(m, s, oct, (0, 1), 1, st0) == scan_rows(m, s, oct, (0, 1), 2, st1));
}

/// The two tiles that touch the tile just above the origin diagonally, that is
/// the tiles beside it in its row, are always seen when on the map and the radius
/// is at least 2, whatever the map holds: a wall right above the origin hides
/// neither.
pub proof fn lemma_beside_above_seen(m: WorldMap, x: u32, y: u32, radius: u32)
    requires
        1 <= x,
        x + 1 < m.spec_width(),
        y + 1 < m.spec_height(),
        radius >= 2,
    ensures
        field_of_view(m, x, y, radius).contains(Point { x: (x - 1) as u32, y: (y + 1) as u32 }),
        field_of_view(m, x, y, radius).contains(Point { x: (x + 1) as u32, y: (y + 1) as u32 }),
{
    let o = Point { x, y };
    let s = Scan { ox: x as int, oy: y as int, radius: radius as int };
    let init = if radius > 0 && m.in_bounds(o) {
        Set::empty().insert(o)
    } else {
        Set::empty()
    };
    let v4 = scan_octants(m, s, 4, init);
    assert(unit_octant(octant(4)));
    assert(unit_octant(octant(5)));
    assert(unit_octant(octant(6)));
    assert(unit_octant(octant(7)));
    lemma_first_cell_seen(m, s, octant(4), v4);
    let v5 = scan_octants(m, s, 5, init);
    assert(v5 == cast(m, s, octant(4), 1, (1, 1), (0, 1), v4));
    let v6 = scan_octants(m, s, 6, init);
    lemma_cast_grows(m, s, octant(5), 1, (1, 1), (0, 1), v5);
    let v7 = scan_octants(m, s, 7, init);
    lemma_cast_grows(m, s, octant(6), 1, (1, 1), (0, 1), v6);
    lemma_first_cell_seen(m, s, octant(7), v7);
    assert(v7.contains(Point { x: (x + 1) as u32, y: (y + 1) as u32 }));
    lemma_cast_grows(m, s, octant(7), 1, (1, 1), (0, 1), v7);
}

/// Two runs of the field of view on the same map, origin and radius see the same
/// tiles.
pub proof fn lemma_field_of_view_deterministic(m: WorldMap, x: u32, y: u32, radius: u32, a: Seq<Point>, b: Seq<Point>)
    requires
        a.to_set() == field_of_view(m, x, y, radius),
        b.to_set() == field_of_view(m, x, y, radius),
    ensures
        a.to_set() == b.to_set(),
{
}

/// Adds `p` to the points of `v` unless it is there already.
fn insert_point(v: &mut Vec<Point>, p: Point)
    requires
        old(v)@.no_duplicates(),
    ensures
        final(v)@.no_duplicates(),
        final(v)@.to_set() == old(v)@.to_set().insert(p),
{
    let n = v.len();
    let mut k: usize = 0;
    let mut found = false;
    while k < n && !found
        invariant
            n == v@.len(),
            k <= n,
            found ==> v@.contains(p),
            !found ==> forall|j: int| 0 <= j < k ==> v@[j] != p,
        decreases n - k + if found { 0int } else { 1int },
    {
        if v[k] == p {
            found = true;
        } else {
            k = k + 1;
        }
    }
    if found {
        assert(v@.to_set() =~= v@.to_set().insert(p));
        return;
    }
    v.push(p);
    proof {
        let s = v@;
        let o = old(v)@;
        assert(s.to_set() =~= o.to_set().insert(p)) by {
            assert forall|q: Point| s.to_set().contains(q) <==> o.to_set().insert(p).contains(q) by {
                if o.contains(q) {
                    let j = choose|j: int| 0 <= j < o.len() && o[j] == q;
                    assert(s[j] == q);
                }
                if s.contains(q) && q != p {
                    let j = choose|j: int| 0 <= j < s.len() && s[j] == q;
                    assert(j < o.len());
                    assert(o[j] == q);
                }
                assert(s[s.len() - 1] == p);
            }
        }
        assert forall|i: int, j: int| 0 <= i < s.len() && 0 <= j < s.len() && i != j implies s[i] != s[j] by {
            if i < o.len() && j < o.len() {
                assert(o[i] != o[j]);
            }
        }
    }
}

fn slope_less(a: Slope, b: Slope) -> (r: bool)
    requires
        a.bounded(),
        b.bounded(),
    ensures
        r == slope_lt(a@, b@),
{
    proof {
        lemma_slope_product(a.num, b.den);
        lemma_slope_product(b.num, a.den);
    }
    a.num * b.den < b.num * a.den
}

proof fn lemma_slope_product(n: i128, d: i128)
    requires
        -SLOPE_BOUND <= n <= SLOPE_BOUND,
        1 <= d <= SLOPE_BOUND,
    ensures
        -SLOPE_BOUND * SLOPE_BOUND <= n * d <= SLOPE_BOUND * SLOPE_BOUND,
{
    assert(-SLOPE_BOUND * SLOPE_BOUND <= n * d <= SLOPE_BOUND * SLOPE_BOUND) by (nonlinear_arith)
        requires
            -SLOPE_BOUND <= n <= SLOPE_BOUND,
            1 <= d <= SLOPE_BOUND,
    ;
}

/// Recursive shadowcasting from one origin with one radius.
pub struct ShadowcastFoV {
    x: u32,
    y: u32,
    radius: u32,
    visible: Vec<Point>,
}

impl ShadowcastFoV {
    pub closed spec fn scan(&self) -> Scan {
        Scan { ox: self.x as int, oy: self.y as int, radius: self.radius as int }
    }

    pub closed spec fn seen(&self) -> Set<Point> {
        self.visible@.to_set()
    }

    pub closed spec fn inv(&self) -> bool {
        self.visible@.no_duplicates()
    }

    /// Computes the set of tiles visible from `(x, y)` within `radius`.
    ///
    /// A tile is seen when the scan reaches it through non-opaque tiles and its
    /// squared distance to the origin is below `radius * radius`; tiles off the map
    /// block sight. Each tile appears once.
    pub fn run(map: &WorldMap, x: u32, y: u32, radius: u32) -> (r: Vec<Point>)
        requires
            map.wf(),
        ensures
            r@.no_duplicates(),
            r@.to_set() == field_of_view(*map, x, y, radius),
    {
        let mut fov = ShadowcastFoV { x, y, radius, visible: Vec::new() };
        let o = Point { x, y };
        if radius > 0 && x < map.width() && y < map.height() {
            fov.visible.push(o);
            proof {
                assert(fov.visible@ == seq![o]);
                assert(fov.visible@.to_set() =~= Set::empty().insert(o)) by {
                    assert(fov.visible@[0] == o);
                }
            }
        } else {
            proof {
                assert(fov.visible@.to_set() =~= Set::<Point>::empty());
            }
        }
        let ghost init = fov.seen();
        let mut k: usize = 0;
        while k < 8
            invariant
                map.wf(),
                k <= 8,
                fov.inv(),
                fov.scan() == (Scan { ox: x as int, oy: y as int, radius: radius as int }),
                fov.seen() == scan_octants(*map, fov.scan(), k as int, init),
                init == (if radius > 0 && map.in_bounds(o) {
                    Set::empty().insert(o)
                } else {
                    Set::empty()
                }),
            decreases 8 - k,
        {
            let oct = octant_exec(k);
            fov.cast_light(map, 1, Slope { num: 1, den: 1 }, Slope { num: 0, den: 1 }, oct);
            k = k + 1;
        }
        fov.visible
    }

    fn cast_light(&mut self, map: &WorldMap, row: i128, start_in: Slope, end: Slope, oct: Octant)
        requires
            map.wf(),
            old(self).inv(),
            1 <= row <= old(self).radius + 1,
            start_in.bounded(),
            end.bounded(),
            unit_octant(oct),
        ensures
            final(self).inv(),
            final(self).scan() == old(self).scan(),
            final(self).seen() == cast(*map, old(self).scan(), oct, row as int, start_in@, end@, old(self).seen()),
        decreases old(self).radius + 1 - row,
    {
        if slope_less(start_in, end) {
            return;
        }
        let ghost s = self.scan();
        let ghost target = cast(*map, s, oct, row as int, start_in@, end@, self.seen());
        let radius = self.radius as i128;
        let width = map.width() as i128;
        let height = map.height() as i128;
        let ox = self.x as i128;
        let oy = self.y as i128;
        let mut start = start_in;
        let mut blocked = false;
        let mut next = start_in;
        let mut i: i128 = row;
        proof {
            assert(radius * radius <= 0xffff_ffff * 0xffff_ffff) by (nonlinear_arith)
                requires
                    0 <= radius <= 0xffff_ffff,
            ;
        }
        while i <= radius
            invariant
                map.wf(),
                self.inv(),
                self.scan() == s,
                s.radius == radius,
                s.ox == ox,
                s.oy == oy,
                0 <= ox <= 0xffff_ffff,
                0 <= oy <= 0xffff_ffff,
                0 <= radius <= 0xffff_ffff,
                radius * radius <= 0xffff_ffff * 0xffff_ffff,
                width == map.spec_width(),
                height == map.spec_height(),
                1 <= row <= i <= radius + 1,
                start.bounded(),
                next.bounded(),
                end.bounded(),
                unit_octant(oct),
                scan_rows(*map, s, oct, end@, i as int, (start@, blocked, next@, self.seen())) == target,
                self.radius == old(self).radius,
            ensures
                self.inv(),
                self.scan() == s,
                self.seen() == target,
            decreases radius + 1 - i,
        {
            if blocked {
                break;
            }
            let mut dx: i128 = -i;
            while dx <= 0
                invariant
                    map.wf(),
                    self.inv(),
                    self.scan() == s,
                    s.radius == radius,
                    s.ox == ox,
                    s.oy == oy,
                    0 <= ox <= 0xffff_ffff,
                    0 <= oy <= 0xffff_ffff,
                    0 <= radius <= 0xffff_ffff,
                    radius * radius <= 0xffff_ffff * 0xffff_ffff,
                    width == map.spec_width(),
                    height == map.spec_height(),
                    1 <= row <= i <= radius,
                    -i <= dx <= 1,
                    start.bounded(),
                    next.bounded(),
                    end.bounded(),
                    unit_octant(oct),
                    scan_rows(*map, s, oct, end@, i + 1, scan_cells(*map, s, oct, end@, i as int, dx as int, (start@, blocked, next@, self.seen()))) == target,
                    self.radius == old(self).radius,
                ensures
                    self.inv(),
                    self.scan() == s,
                    self.radius == old(self).radius,
                    start.bounded(),
                    next.bounded(),
                    scan_rows(*map, s, oct, end@, i + 1, (start@, blocked, next@, self.seen())) == target,
                decreases 1 - dx,
            {
                let dy: i128 = -i;
                let l = Slope { num: 1 - 2 * dx, den: 2 * i - 1 };
                let rs = Slope { num: -2 * dx - 1, den: 2 * i + 1 };
                assert(l@ == left_slope(i as int, dx as int));
                assert(rs@ == right_slope(i as int, dx as int));
                if slope_less(start, rs) {
                    dx = dx + 1;
                    continue;
                } else if slope_less(l, end) {
                    break;
                }
                let ghost k = choose|k: int| 0 <= k < 8 && oct == octant(k);
                assert(-1 <= oct.xx <= 1 && -1 <= oct.xy <= 1 && -1 <= oct.yx <= 1 && -1 <= oct.yy <= 1);
                assert(-i <= dx * oct.xx <= i) by (nonlinear_arith)
                    requires
                        -i <= dx <= 0,
                        -1 <= oct.xx <= 1,
                ;
                assert(-i <= dy * oct.xy <= i) by (nonlinear_arith)
                    requires
                        dy == -i,
                        i >= 0,
                        -1 <= oct.xy <= 1,
                ;
                assert(-i <= dx * oct.yx <= i) by (nonlinear_arith)
                    requires
                        -i <= dx <= 0,
                        -1 <= oct.yx <= 1,
                ;
                assert(-i <= dy * oct.yy <= i) by (nonlinear_arith)
                    requires
                        dy == -i,
                        i >= 0,
                        -1 <= oct.yy <= 1,
                ;
                let ax = ox + dx * oct.xx + dy * oct.xy;
                let ay = oy + dx * oct.yx + dy * oct.yy;
                if ax < 0 || ay < 0 || ax >= width || ay >= height {
                    dx = dx + 1;
                    continue;
                }
                let p = Point { x: ax as u32, y: ay as u32 };
                assert(dx * dx <= i * i && dy * dy == i * i) by (nonlinear_arith)
                    requires
                        -i <= dx <= 0,
                        dy == -i,
                ;
                assert(i * i <= radius * radius) by (nonlinear_arith)
                    requires
                        0 <= i <= radius,
                ;
                assert(0 <= dx * dx) by (nonlinear_arith);
                if dx * dx + dy * dy < radius * radius {
                    insert_point(&mut self.visible, p);
                }
                let solid = match map.get(p) {
                    Some(t) => t.is_solid(),
                    None => true,
                };
                if blocked {
                    if solid {
                        next = rs;
                    } else {
                        blocked = false;
                        start = next;
                    }
                } else if solid {
                    blocked = true;
                    self.cast_light(map, i + 1, start, l, oct);
                    next = rs;
                }
                dx = dx + 1;
            }
            i = i + 1;
        }
    }
}

} // verus!
