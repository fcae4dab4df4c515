//! Road synthesis: anchor collection, a degree-constrained Kruskal minimum
//! spanning tree over candidate edges, and curved path validation.

use vstd::prelude::*;

use vstd::set_lib::lemma_int_range;
use vstd::set_lib::lemma_len_subset;
use vstd::set_lib::set_int_range;

use crate::grid::BiomeKind;
use crate::grid::SettlementKind;
use crate::grid::Terrain;
use crate::grid::TerrainGrid;
use crate::grid::row_major_lt;
use crate::zone::cell_int;
use crate::zone::in_bounds;
use crate::zone::list_has;

verus! {

/// Squared-distance cap for a candidate edge touching a village.
pub const VILLAGE_DISTANCE_MAX_SQ: u64 = 10000;

/// Squared-distance cap for a candidate edge between cities.
pub const CITY_DISTANCE_MAX_SQ: u64 = 40000;

/// Most accepted edges at a village anchor.
pub const VILLAGE_MAX_ROUTES: usize = 3;

/// Most accepted edges at a city anchor.
pub const CITY_MAX_ROUTES: usize = 5;

/// Largest grid side the road builder accepts; keeps the fixed-point curve
/// arithmetic inside 64 bits.
pub const ROAD_COORD_LIMIT: usize = 0x8000_0000;

/// Terrain codes a road may not cross.
pub open spec fn restricted_cell(t: Terrain) -> bool {
    ||| t == Terrain::Biome(BiomeKind::DeepWater)
    ||| t == Terrain::Biome(BiomeKind::Water)
    ||| t == Terrain::Biome(BiomeKind::Sand)
    ||| t == Terrain::Biome(BiomeKind::Mountain)
    ||| t == Terrain::Biome(BiomeKind::MountainSnow)
    ||| t == Terrain::Biome(BiomeKind::Glacial)
    ||| t == Terrain::Biome(BiomeKind::DesertHot)
    ||| t == Terrain::Biome(BiomeKind::Marsh)
}

/// Runtime form of [`restricted_cell`].
fn restricted_exec(t: Terrain) -> (r: bool)
    ensures
        r == restricted_cell(t),
{
    match t {
        Terrain::Biome(_) => true,
        _ => false,
    }
}

pub open spec fn is_settlement(t: Terrain) -> bool {
    t == Terrain::Settlement(SettlementKind::Village) || t == Terrain::Settlement(
        SettlementKind::City,
    )
}

/// A true anchor centre: a settlement cell whose cross of four orthogonal
/// neighbours at distance 1 and 2 carries the same code, away from the
/// border. This tells a centre from a cell that merely belongs to a
/// footprint.
pub open spec fn anchor_at(g: Seq<Seq<Terrain>>, n: int, c: (int, int)) -> bool {
    &&& 2 <= c.0 < n - 2
    &&& 2 <= c.1 < n - 2
    &&& is_settlement(g[c.0][c.1])
    &&& g[c.0 - 1][c.1] == g[c.0][c.1]
    &&& g[c.0 + 1][c.1] == g[c.0][c.1]
    &&& g[c.0][c.1 - 1] == g[c.0][c.1]
    &&& g[c.0][c.1 + 1] == g[c.0][c.1]
    &&& g[c.0 - 2][c.1] == g[c.0][c.1]
    &&& g[c.0 + 2][c.1] == g[c.0][c.1]
    &&& g[c.0][c.1 - 2] == g[c.0][c.1]
    &&& g[c.0][c.1 + 2] == g[c.0][c.1]
}

/// Scans the grid for stamped settlement crosses and returns their centres
/// in row-major order: exactly the cells satisfying [`anchor_at`].
pub fn collect_anchors(base: &TerrainGrid) -> (r: Vec<(usize, usize)>)
    requires
        base.wf(base@.len() as int),
    ensures
        forall|k: int|
            0 <= k < r@.len() ==> anchor_at(base@, base@.len() as int, cell_int(#[trigger] r@[k])),
        forall|c: (int, int)|
            anchor_at(base@, base@.len() as int, c) ==> list_has(r@, c),
        forall|k: int, l: int|
            0 <= k < l < r@.len() ==> row_major_lt(
                r@[k].0 as int,
                r@[k].1 as int,
                r@[l].0 as int,
                r@[l].1 as int,
            ),
{
    let n = base.side();
    let mut r: Vec<(usize, usize)> = Vec::new();
    if n < 5 {
        return r;
    }
    let mut i: usize = 2;
    while i < n - 2
        invariant
            2 <= i <= n - 2,
            5 <= n,
            n == base@.len(),
            base.wf(n as int),
            forall|k: int|
                0 <= k < r@.len() ==> anchor_at(base@, n as int, cell_int(#[trigger] r@[k])),
            forall|c: (int, int)| anchor_at(base@, n as int, c) && c.0 < i ==> list_has(r@, c),
            forall|k: int|
                0 <= k < r@.len() ==> 2 <= (#[trigger] r@[k]).0 < i || ((r@[k]).0 == i && false),
            forall|k: int, l: int|
                0 <= k < l < r@.len() ==> row_major_lt(
                    r@[k].0 as int,
                    r@[k].1 as int,
                    r@[l].0 as int,
                    r@[l].1 as int,
                ),
        decreases n - i,
    {
        let mut j: usize = 2;
        while j < n - 2
            invariant
                2 <= i < n - 2,
                2 <= j <= n - 2,
                5 <= n,
                n == base@.len(),
                base.wf(n as int),
                forall|k: int|
                    0 <= k < r@.len() ==> anchor_at(base@, n as int, cell_int(#[trigger] r@[k])),
                forall|c: (int, int)|
                    anchor_at(base@, n as int, c) && row_major_lt(c.0, c.1, i as int, j as int)
                        ==> list_has(r@, c),
                forall|k: int|
                    0 <= k < r@.len() ==> row_major_lt(
                        (#[trigger] r@[k]).0 as int,
                        r@[k].1 as int,
                        i as int,
                        j as int,
                    ),
                forall|k: int, l: int|
                    0 <= k < l < r@.len() ==> row_major_lt(
                        r@[k].0 as int,
                        r@[k].1 as int,
                        r@[l].0 as int,
                        r@[l].1 as int,
                    ),
            decreases n - j,
        {
            let ghost rpre = r@;
            let t = base.at(i, j);
            let is_s = t == Terrain::Settlement(SettlementKind::Village) || t
                == Terrain::Settlement(SettlementKind::City);
            if is_s && base.at(i - 1, j) == t && base.at(i + 1, j) == t && base.at(i, j - 1) == t
                && base.at(i, j + 1) == t && base.at(i - 2, j) == t && base.at(i + 2, j) == t
                && base.at(i, j - 2) == t && base.at(i, j + 2) == t {
                r.push((i, j));
            }
            proof {
                assert forall|c: (int, int)|
                    anchor_at(base@, n as int, c) && row_major_lt(c.0, c.1, i as int, j + 1)
                        implies list_has(r@, c) by {
                    if c == (i as int, j as int) {
                        assert(cell_int(r@[r@.len() - 1]) == c);
                    } else {
                        assert(row_major_lt(c.0, c.1, i as int, j as int));
                        assert(list_has(rpre, c));
                        let k = choose|k: int|
                            0 <= k < rpre.len() && cell_int(#[trigger] rpre[k]) == c;
                        assert(cell_int(r@[k]) == c);
                    }
                }
            }
            j += 1;
        }
        i += 1;
    }
    r
}

/// One coordinate of the quadratic Bezier curve through `a`, control `c`
/// and `b`, sampled at parameter `k` of 100, in fixed point.
pub open spec fn bezier_coord(a: int, c: int, b: int, k: int) -> int {
    ((100 - k) * (100 - k) * a + 2 * (100 - k) * k * c + k * k * b) / 10000
}

/// A sampled curve point.
pub open spec fn bezier_point(s: (int, int), c: (int, int), e: (int, int), k: int) -> (int, int) {
    (bezier_coord(s.0, c.0, e.0, k), bezier_coord(s.1, c.1, e.1, k))
}

/// The control point of a road: the midpoint of its two anchors.
pub open spec fn route_control(s: (int, int), e: (int, int)) -> (int, int) {
    ((s.0 + e.0) / 2, (s.1 + e.1) / 2)
}

/// The cell lies on the sampled curve from `s` to `e`.
pub open spec fn on_route(s: (int, int), e: (int, int), c: (int, int)) -> bool {
    exists|k: int| 0 <= k <= 100 && c == #[trigger] bezier_point(s, route_control(s, e), e, k)
}

/// The first sample of a curve is its start and the last its end.
pub proof fn lemma_bezier_endpoints(s: (int, int), c: (int, int), e: (int, int))
    requires
        s.0 >= 0,
        s.1 >= 0,
        e.0 >= 0,
        e.1 >= 0,
    ensures
        bezier_point(s, c, e, 0) == s,
        bezier_point(s, c, e, 100) == e,
{
    assert(((100 - 0) * (100 - 0) * s.0 + 2 * (100 - 0) * 0 * c.0 + 0 * 0 * e.0) / 10000 == s.0)
        by (nonlinear_arith)
        requires
            s.0 >= 0,
    ;
    assert(((100 - 0) * (100 - 0) * s.1 + 2 * (100 - 0) * 0 * c.1 + 0 * 0 * e.1) / 10000 == s.1)
        by (nonlinear_arith)
        requires
            s.1 >= 0,
    ;
    assert(((100 - 100) * (100 - 100) * s.0 + 2 * (100 - 100) * 100 * c.0 + 100 * 100 * e.0)
        / 10000 == e.0) by (nonlinear_arith)
        requires
            e.0 >= 0,
    ;
    assert(((100 - 100) * (100 - 100) * s.1 + 2 * (100 - 100) * 100 * c.1 + 100 * 100 * e.1)
        / 10000 == e.1) by (nonlinear_arith)
        requires
            e.1 >= 0,
    ;
}

/// A sampled coordinate never leaves the range spanned by its three
/// control coordinates.
proof fn lemma_bezier_coord_range(a: int, c: int, b: int, k: int)
    requires
        0 <= a,
        0 <= c,
        0 <= b,
        0 <= k <= 100,
    ensures
        0 <= bezier_coord(a, c, b, k),
        bezier_coord(a, c, b, k) <= a || bezier_coord(a, c, b, k) <= c || bezier_coord(
            a,
            c,
            b,
            k,
        ) <= b,
{
    let mx: int = if a >= c && a >= b {
        a
    } else if c >= b {
        c
    } else {
        b
    };
    let num = (100 - k) * (100 - k) * a + 2 * (100 - k) * k * c + k * k * b;
    assert(0 <= num <= 10000 * mx) by (nonlinear_arith)
        requires
            num == (100 - k) * (100 - k) * a + 2 * (100 - k) * k * c + k * k * b,
            0 <= k <= 100,
            0 <= a <= mx,
            0 <= c <= mx,
            0 <= b <= mx,
    ;
    assert(0 <= num / 10000 <= mx) by (nonlinear_arith)
        requires
            0 <= num <= 10000 * mx,
            0 <= mx,
    ;
}

/// One exec Bezier coordinate; the result never leaves the range spanned by
/// the three inputs.
fn bezier_coord_exec(a: usize, c: usize, b: usize, k: usize) -> (r: usize)
    requires
        a < ROAD_COORD_LIMIT,
        c < ROAD_COORD_LIMIT,
        b < ROAD_COORD_LIMIT,
        k <= 100,
    ensures
        r as int == bezier_coord(a as int, c as int, b as int, k as int),
        r <= a || r <= c || r <= b,
{
    let km: u64 = (100 - k) as u64;
    let kk: u64 = k as u64;
    proof {
        assert(km * km <= 10000 && 2 * km * kk <= 20000 && kk * kk <= 10000) by (nonlinear_arith)
            requires
                km <= 100,
                kk <= 100,
        ;
    }
    let w0: u64 = km * km;
    let w1: u64 = 2 * km * kk;
    let w2: u64 = kk * kk;
    proof {
        assert(w0 * (a as u64) + w1 * (c as u64) + w2 * (b as u64) < 0x1_0000_0000_0000)
            by (nonlinear_arith)
            requires
                w0 <= 10000,
                w1 <= 20000,
                w2 <= 10000,
                (a as u64) < 0x8000_0000,
                (c as u64) < 0x8000_0000,
                (b as u64) < 0x8000_0000,
        ;
    }
    let num: u64 = w0 * (a as u64) + w1 * (c as u64) + w2 * (b as u64);
    let r64: u64 = num / 10000;
    proof {
        let mx: int = if a >= c && a >= b {
            a as int
        } else if c >= b {
            c as int
        } else {
            b as int
        };
        assert(w0 + w1 + w2 == 10000) by (nonlinear_arith)
            requires
                km == 100 - kk,
                kk <= 100,
                w0 == km * km,
                w1 == 2 * km * kk,
                w2 == kk * kk,
        ;
        assert(num <= 10000 * mx) by (nonlinear_arith)
            requires
                num == w0 * a + w1 * c + w2 * b,
                w0 + w1 + w2 == 10000,
                w0 >= 0,
                w1 >= 0,
                w2 >= 0,
                a <= mx,
                c <= mx,
                b <= mx,
        ;
        assert(r64 <= mx) by (nonlinear_arith)
            requires
                r64 == num / 10000,
                num <= 10000 * mx,
                num >= 0,
                mx >= 0,
        ;
    }
    r64 as usize
}

/// Samples the quadratic Bezier curve through the three points at 101
/// evenly spaced parameter steps.
pub fn bezier_curve(start: (usize, usize), control: (usize, usize), end: (usize, usize)) -> (path:
    Vec<(usize, usize)>)
    requires
        start.0 < ROAD_COORD_LIMIT,
        start.1 < ROAD_COORD_LIMIT,
        control.0 < ROAD_COORD_LIMIT,
        control.1 < ROAD_COORD_LIMIT,
        end.0 < ROAD_COORD_LIMIT,
        end.1 < ROAD_COORD_LIMIT,
    ensures
        path@.len() == 101,
        forall|k: int|
            0 <= k < 101 ==> cell_int(#[trigger] path@[k]) == bezier_point(
                cell_int(start),
                cell_int(control),
                cell_int(end),
                k,
            ),
        forall|k: int|
            0 <= k < 101 ==> ((#[trigger] path@[k]).0 <= start.0 || path@[k].0 <= control.0
                || path@[k].0 <= end.0) && (path@[k].1 <= start.1 || path@[k].1 <= control.1
                || path@[k].1 <= end.1),
{
    let mut path: Vec<(usize, usize)> = Vec::new();
    let mut k: usize = 0;
    while k <= 100
        invariant
            k <= 101,
            path@.len() == k,
            start.0 < ROAD_COORD_LIMIT,
            start.1 < ROAD_COORD_LIMIT,
            control.0 < ROAD_COORD_LIMIT,
            control.1 < ROAD_COORD_LIMIT,
            end.0 < ROAD_COORD_LIMIT,
            end.1 < ROAD_COORD_LIMIT,
            forall|l: int|
                0 <= l < k ==> cell_int(#[trigger] path@[l]) == bezier_point(
                    cell_int(start),
                    cell_int(control),
                    cell_int(end),
                    l,
                ),
            forall|l: int|
                0 <= l < k ==> ((#[trigger] path@[l]).0 <= start.0 || path@[l].0 <= control.0
                    || path@[l].0 <= end.0) && (path@[l].1 <= start.1 || path@[l].1 <= control.1
                    || path@[l].1 <= end.1),
        decreases 101 - k,
    {
        let x = bezier_coord_exec(start.0, control.0, end.0, k);
        let y = bezier_coord_exec(start.1, control.1, end.1, k);
        path.push((x, y));
        k += 1;
    }
    path
}

/// Builds the curved path between two anchors and, when every one of its
/// 101 samples lies on unrestricted terrain, writes the route code over all
/// of them. Returns whether the path was drawn; on refusal the grid is
/// untouched. Success happens exactly when no sample of the curve sits on
/// restricted terrain in the incoming grid.
pub fn tracer_route(base: &mut TerrainGrid, start: (usize, usize), end: (usize, usize)) -> (ok:
    bool)
    requires
        old(base).wf(old(base)@.len() as int),
        old(base)@.len() <= ROAD_COORD_LIMIT,
        (start.0 as int) < old(base)@.len(),
        (start.1 as int) < old(base)@.len(),
        (end.0 as int) < old(base)@.len(),
        (end.1 as int) < old(base)@.len(),
    ensures
        final(base).wf(old(base)@.len() as int),
        ok <==> forall|k: int|
            0 <= k <= 100 ==> !restricted_cell(
                {
                    let p = #[trigger] bezier_point(
                        cell_int(start),
                        route_control(cell_int(start), cell_int(end)),
                        cell_int(end),
                        k,
                    );
                    old(base)@[p.0][p.1]
                },
            ),
        !ok ==> final(base)@ == old(base)@,
        ok ==> forall|c: (int, int)|
            in_bounds(old(base)@.len() as int, c) ==> final(base)@[c.0][c.1] == (if on_route(
                cell_int(start),
                cell_int(end),
                c,
            ) {
                Terrain::Route
            } else {
                old(base)@[c.0][c.1]
            }),
{
    let n = base.side();
    let control = ((start.0 + end.0) / 2, (start.1 + end.1) / 2);
    let path = bezier_curve(start, control, end);
    let ghost s = cell_int(start);
    let ghost e = cell_int(end);
    let ghost ctl = route_control(s, e);
    proof {
        assert(cell_int(control) == ctl);
    }
    let mut k: usize = 0;
    while k < 101
        invariant
            base.wf(n as int),
            n == base@.len(),
            base@ == old(base)@,
            n <= ROAD_COORD_LIMIT,
            (start.0 as int) < n,
            (start.1 as int) < n,
            (end.0 as int) < n,
            (end.1 as int) < n,
            k <= 101,
            path@.len() == 101,
            s == cell_int(start),
            e == cell_int(end),
            ctl == route_control(s, e),
            forall|l: int|
                0 <= l < 101 ==> cell_int(#[trigger] path@[l]) == bezier_point(s, ctl, e, l),
            forall|l: int|
                0 <= l < 101 ==> ((#[trigger] path@[l]).0 as int) < n && ((path@[l]).1 as int) < n,
            forall|l: int|
                0 <= l < k ==> !restricted_cell(
                    base@[(#[trigger] path@[l]).0 as int][path@[l].1 as int],
                ),
        decreases 101 - k,
    {
        let p = path[k];
        if restricted_exec(base.at(p.0, p.1)) {
            proof {
                let pk = bezier_point(
                    cell_int(start),
                    route_control(cell_int(start), cell_int(end)),
                    cell_int(end),
                    k as int,
                );
                assert(pk == bezier_point(s, ctl, e, k as int));
                assert(restricted_cell(old(base)@[pk.0][pk.1]));
            }
            return false;
        }
        k += 1;
    }
    let mut m: usize = 0;
    while m < 101
        invariant
            base.wf(n as int),
            n == old(base)@.len(),
            n <= ROAD_COORD_LIMIT,
            m <= 101,
            path@.len() == 101,
            s == cell_int(start),
            e == cell_int(end),
            ctl == route_control(s, e),
            forall|l: int|
                0 <= l < 101 ==> cell_int(#[trigger] path@[l]) == bezier_point(s, ctl, e, l),
            forall|l: int|
                0 <= l < 101 ==> ((#[trigger] path@[l]).0 as int) < n && ((path@[l]).1 as int) < n,
            forall|l: int|
                0 <= l < 101 ==> !restricted_cell(
                    old(base)@[(#[trigger] path@[l]).0 as int][path@[l].1 as int],
                ),
            forall|c: (int, int)|
                in_bounds(n as int, c) ==> base@[c.0][c.1] == (if exists|l: int|
                    0 <= l < m && c == #[trigger] bezier_point(s, ctl, e, l) {
                    Terrain::Route
                } else {
                    old(base)@[c.0][c.1]
                }),
        decreases 101 - m,
    {
        let ghost bpre = base@;
        let p = path[m];
        base.set(p.0, p.1, Terrain::Route);
        proof {
            assert forall|c: (int, int)| in_bounds(n as int, c) implies base@[c.0][c.1] == (if
                exists|l: int| 0 <= l < m + 1 && c == #[trigger] bezier_point(s, ctl, e, l) {
                Terrain::Route
            } else {
                old(base)@[c.0][c.1]
            }) by {
                if c == cell_int(p) {
                    assert(c == bezier_point(s, ctl, e, m as int));
                } else {
                    assert(base@[c.0][c.1] == bpre[c.0][c.1]);
                    if exists|l: int| 0 <= l < m + 1 && c == #[trigger] bezier_point(s, ctl, e, l) {
                        let l = choose|l: int|
                            0 <= l < m + 1 && c == #[trigger] bezier_point(s, ctl, e, l);
                        assert(l < m);
                    }
                }
            }
        }
        m += 1;
    }
    proof {
        assert forall|k: int| 0 <= k <= 100 implies !restricted_cell(
            {
                let p = #[trigger] bezier_point(s, ctl, e, k);
                old(base)@[p.0][p.1]
            },
        ) by {
            assert(cell_int(path@[k]) == bezier_point(s, ctl, e, k));
            assert(!restricted_cell(old(base)@[path@[k].0 as int][path@[k].1 as int]));
        }
        assert forall|c: (int, int)| in_bounds(n as int, c) implies base@[c.0][c.1] == (if on_route(
            s,
            e,
            c,
        ) {
            Terrain::Route
        } else {
            old(base)@[c.0][c.1]
        }) by {
            if on_route(s, e, c) {
                let l = choose|l: int|
                    0 <= l <= 100 && c == #[trigger] bezier_point(s, ctl, e, l);
                assert(0 <= l < 101 && c == bezier_point(s, ctl, e, l));
            } else {
                if exists|l: int| 0 <= l < 101 && c == #[trigger] bezier_point(s, ctl, e, l) {
                    let l = choose|l: int|
                        0 <= l < 101 && c == #[trigger] bezier_point(s, ctl, e, l);
                    assert(0 <= l <= 100 && c == bezier_point(s, ctl, e, l));
                }
            }
        }
    }
    true
}

/// A candidate road between two anchors, identified by their indices, with
/// its squared-distance cost.
#[derive(Clone, Copy, Debug, PartialEq, Eq, Structural)]
pub struct Edge {
    pub cost: u64,
    pub start: usize,
    pub end: usize,
}

/// Squared Euclidean distance between two anchors, in 64 bits.
fn distance_sq_u64(a: (usize, usize), b: (usize, usize)) -> (r: u64)
    requires
        a.0 < ROAD_COORD_LIMIT,
        a.1 < ROAD_COORD_LIMIT,
        b.0 < ROAD_COORD_LIMIT,
        b.1 < ROAD_COORD_LIMIT,
    ensures
        r as int == crate::spec_distance_squared(cell_int(a), cell_int(b)),
{
    let dx: u64 = if a.0 >= b.0 {
        (a.0 - b.0) as u64
    } else {
        (b.0 - a.0) as u64
    };
    let dy: u64 = if a.1 >= b.1 {
        (a.1 - b.1) as u64
    } else {
        (b.1 - a.1) as u64
    };
    proof {
        assert(dx * dx + dy * dy < 0x8000_0000_0000_0000 && dx * dx == (a.0 - b.0) * (a.0 - b.0)
            && dy * dy == (a.1 - b.1) * (a.1 - b.1)) by (nonlinear_arith)
            requires
                dx < 0x8000_0000,
                dy < 0x8000_0000,
                (dx == a.0 - b.0 || dx == b.0 - a.0) && (dy == a.1 - b.1 || dy == b.1 - a.1),
        ;
    }
    dx * dx + dy * dy
}

/// Sorts candidate edges by ascending cost with a stable insertion sort:
/// edges of equal cost keep their enumeration order.
fn sort_edges(edges: Vec<Edge>) -> (r: Vec<Edge>)
    ensures
        r@.len() == edges@.len(),
        r@.to_multiset() == edges@.to_multiset(),
        forall|k: int, l: int| 0 <= k < l < r@.len() ==> r@[k].cost <= r@[l].cost,
{
    broadcast use vstd::seq_lib::group_to_multiset_ensures;
    broadcast use vstd::seq_lib::to_multiset_insert;

    let ghost ms0 = edges@.to_multiset();
    let ghost len0 = edges@.len();
    let mut v = edges;
    let mut i: usize = 1;
    while i < v.len()
        invariant
            1 <= i,
            v@.len() == len0,
            v@.to_multiset() == ms0,
            forall|a: int, b: int| 0 <= a < b < i && b < v@.len() ==> v@[a].cost <= v@[b].cost,
        decreases v@.len() - i,
    {
        let ghost pre = v@;
        let e = v.remove(i);
        let ghost mid = v@;
        let mut p: usize = i;
        while p > 0 && v[p - 1].cost > e.cost
            invariant
                p <= i,
                i < len0,
                v@ == mid,
                mid.len() == len0 - 1,
                forall|a: int| p <= a < i ==> mid[a].cost > e.cost,
            decreases p,
        {
            p -= 1;
        }
        v.insert(p, e);
        proof {
            assert(mid == pre.remove(i as int));
            vstd::seq_lib::to_multiset_remove::<Edge>(pre, i as int);
            assert(v@ == mid.insert(p as int, e));
            vstd::seq_lib::to_multiset_insert::<Edge>(mid, p as int, e);
            pre.to_multiset_ensures();
            assert(pre.contains(e));
            assert(pre.to_multiset().count(e) > 0);
            assert(v@.to_multiset() =~= pre.to_multiset());
            assert forall|a: int, b: int|
                0 <= a < b < i + 1 && b < v@.len() implies v@[a].cost <= v@[b].cost by {
                if b < p {
                    assert(v@[a] == mid[a] && v@[b] == mid[b]);
                } else if b == p {
                    if a < p {
                        assert(v@[a] == mid[a] && v@[b] == e);
                        assert(p > 0 && mid[p - 1].cost <= e.cost);
                        assert(mid[a].cost <= mid[p - 1].cost);
                    }
                } else {
                    assert(v@[b] == mid[b - 1]);
                    assert(b - 1 < i);
                    assert(mid[b - 1].cost > e.cost);
                    if a < p {
                        assert(v@[a] == mid[a]);
                        if p > 0 {
                            assert(mid[a].cost <= mid[p - 1].cost);
                            assert(mid[p - 1].cost <= e.cost);
                        }
                    } else if a == p {
                        assert(v@[a] == e);
                    } else {
                        assert(v@[a] == mid[a - 1]);
                    }
                }
            }
        }
        i += 1;
    }
    v
}

/// Union-Find over anchor indices, used by Kruskal's algorithm to test
/// whether an edge would merge two components.
///
/// Roots are kept minimal: a union links the larger root under the smaller,
/// so every parent index is at most its child's. The partition this yields
/// is the same as under union by rank; only the tree shapes differ.
pub struct UnionFind {
    pub parent: Vec<usize>,
    pub num_sets: usize,
}

/// Every node's parent index is at most the node's own index.
pub open spec fn uf_parent_wf(p: Seq<usize>) -> bool {
    forall|x: int| 0 <= x < p.len() ==> (#[trigger] p[x]) as int <= x
}

/// The representative of `x`: follow parent links to a fixed point.
pub open spec fn root_of(p: Seq<usize>, x: int) -> int
    decreases x,
        when uf_parent_wf(p) && 0 <= x < p.len()
{
    if p[x] as int == x {
        x
    } else {
        root_of(p, p[x] as int)
    }
}

/// The set of representatives: the fixed points of the parent array.
pub open spec fn uf_roots(p: Seq<usize>) -> Set<int> {
    Set::new(|x: int| 0 <= x < p.len() && (p[x] as int) == x)
}

/// The representative of a valid index is a root within bounds.
pub proof fn lemma_root_of_is_root(p: Seq<usize>, x: int)
    requires
        uf_parent_wf(p),
        0 <= x < p.len(),
    ensures
        0 <= root_of(p, x) <= x,
        uf_roots(p).contains(root_of(p, x)),
    decreases x,
{
    if p[x] as int != x {
        lemma_root_of_is_root(p, p[x] as int);
    }
}

/// The roots form a finite set of at most `p.len()` elements; if the array
/// is not empty there is at least one root.
pub proof fn lemma_uf_roots_card(p: Seq<usize>)
    requires
        uf_parent_wf(p),
    ensures
        uf_roots(p).finite(),
        uf_roots(p).len() <= p.len(),
        p.len() > 0 ==> uf_roots(p).len() >= 1,
{
    lemma_int_range(0, p.len() as int);
    assert(uf_roots(p).subset_of(set_int_range(0, p.len() as int)));
    lemma_len_subset(uf_roots(p), set_int_range(0, p.len() as int));
    if p.len() > 0 {
        lemma_root_of_is_root(p, 0);
        let r = root_of(p, 0);
        assert(uf_roots(p).remove(r).len() == uf_roots(p).len() - 1);
    }
}

/// Re-rooting `ry` under `rx` redirects exactly the nodes whose
/// representative was `ry`.
proof fn lemma_root_of_update(p: Seq<usize>, rx: int, ry: int, z: int)
    requires
        uf_parent_wf(p),
        0 <= rx < ry < p.len(),
        p[rx] as int == rx,
        p[ry] as int == ry,
        0 <= z < p.len(),
    ensures
        uf_parent_wf(p.update(ry, rx as usize)),
        root_of(p.update(ry, rx as usize), z) == (if root_of(p, z) == ry {
            rx
        } else {
            root_of(p, z)
        }),
    decreases z,
{
    let q = p.update(ry, rx as usize);
    assert(uf_parent_wf(q));
    if z == ry {
        assert(q[z] as int == rx);
        assert(root_of(q, rx) == rx);
    } else {
        if p[z] as int == z {
            assert(root_of(q, z) == z);
        } else {
            lemma_root_of_update(p, rx, ry, p[z] as int);
        }
    }
}

impl UnionFind {
    /// The structure is consistent: parents point downward and `num_sets`
    /// counts the representatives.
    pub open spec fn wf(&self) -> bool {
        &&& uf_parent_wf(self.parent@)
        &&& self.num_sets == uf_roots(self.parent@).len()
    }

    pub open spec fn len(&self) -> int {
        self.parent@.len() as int
    }

    /// A fresh structure: every index is its own representative.
    pub fn new(n: usize) -> (r: UnionFind)
        ensures
            r.wf(),
            r.len() == n,
            r.num_sets == n,
            forall|x: int| 0 <= x < n ==> root_of(r.parent@, x) == x,
    {
        let mut parent: Vec<usize> = Vec::new();
        let mut i: usize = 0;
        while i < n
            invariant
                i <= n,
                parent@.len() == i,
                forall|x: int| 0 <= x < i ==> (#[trigger] parent@[x]) as int == x,
            decreases n - i,
        {
            parent.push(i);
            i += 1;
        }
        proof {
            assert(uf_parent_wf(parent@));
            lemma_int_range(0, n as int);
            assert(uf_roots(parent@) =~= set_int_range(0, n as int));
        }
        UnionFind { parent, num_sets: n }
    }

    /// The representative of `x`.
    pub fn find(&self, x: usize) -> (r: usize)
        requires
            self.wf(),
            (x as int) < self.len(),
        ensures
            r as int == root_of(self.parent@, x as int),
            r <= x,
            self.parent@[r as int] == r,
    {
        let mut r = x;
        while self.parent[r] != r
            invariant
                self.wf(),
                (r as int) < self.len(),
                r <= x,
                root_of(self.parent@, r as int) == root_of(self.parent@, x as int),
            decreases r,
        {
            r = self.parent[r];
        }
        r
    }

    /// Merges the two components. When the representatives differ the larger
    /// is linked under the smaller and the number of components drops by
    /// one; otherwise nothing changes.
    pub fn union(&mut self, x: usize, y: usize)
        requires
            old(self).wf(),
            (x as int) < old(self).len(),
            (y as int) < old(self).len(),
        ensures
            final(self).wf(),
            final(self).len() == old(self).len(),
            root_of(old(self).parent@, x as int) == root_of(old(self).parent@, y as int)
                ==> *final(self) == *old(self),
            root_of(old(self).parent@, x as int) != root_of(old(self).parent@, y as int)
                ==> final(self).num_sets == old(self).num_sets - 1,
            forall|z: int|
                0 <= z < old(self).len() ==> root_of(final(self).parent@, z) == (
                if root_of(old(self).parent@, z) == root_of(old(self).parent@, x as int) && root_of(
                    old(self).parent@,
                    z,
                ) != root_of(old(self).parent@, y as int) || root_of(old(self).parent@, z)
                    == root_of(old(self).parent@, y as int) && root_of(old(self).parent@, z)
                    != root_of(old(self).parent@, x as int) {
                    if root_of(old(self).parent@, x as int) <= root_of(old(self).parent@, y as int) {
                        root_of(old(self).parent@, x as int)
                    } else {
                        root_of(old(self).parent@, y as int)
                    }
                } else {
                    root_of(old(self).parent@, z)
                }),
    {
        let rx = self.find(x);
        let ry = self.find(y);
        if rx != ry {
            let (lo, hi) = if rx < ry {
                (rx, ry)
            } else {
                (ry, rx)
            };
            proof {
                lemma_root_of_is_root(self.parent@, x as int);
                lemma_root_of_is_root(self.parent@, y as int);
                assert forall|z: int| 0 <= z < self.parent@.len() implies root_of(
                    self.parent@.update(hi as int, lo),
                    z,
                ) == (if root_of(self.parent@, z) == hi as int {
                    lo as int
                } else {
                    root_of(self.parent@, z)
                }) by {
                    lemma_root_of_update(self.parent@, lo as int, hi as int, z);
                }
                lemma_root_of_update(self.parent@, lo as int, hi as int, lo as int);
                assert(uf_roots(self.parent@.update(hi as int, lo)) =~= uf_roots(
                    self.parent@,
                ).remove(hi as int));
                assert(uf_roots(self.parent@).contains(hi as int));
                lemma_uf_roots_card(self.parent@);
            }
            let hi_idx: usize = hi;
            self.parent.set(hi_idx, lo);
            self.num_sets = self.num_sets - 1;
        }
    }
}

/// The anchor's cell holds the village code in the given grid.
pub open spec fn village_at(g: Seq<Seq<Terrain>>, p: (usize, usize)) -> bool {
    g[p.0 as int][p.1 as int] == Terrain::Settlement(SettlementKind::Village)
}

/// The candidate edge a pair of anchors produces.
pub open spec fn cand_edge(points: Seq<(usize, usize)>, i: int, j: int) -> Edge {
    Edge {
        cost: crate::spec_distance_squared(cell_int(points[i]), cell_int(points[j])) as u64,
        start: i as usize,
        end: j as usize,
    }
}

/// The pair's squared distance is within its role's cap: the village cap
/// when either anchor holds the village code in `g`, else the city cap.
pub open spec fn under_cap(
    points: Seq<(usize, usize)>,
    g: Seq<Seq<Terrain>>,
    i: int,
    j: int,
) -> bool {
    crate::spec_distance_squared(cell_int(points[i]), cell_int(points[j])) <= (if village_at(
        g,
        points[i],
    ) || village_at(g, points[j]) {
        VILLAGE_DISTANCE_MAX_SQ as int
    } else {
        CITY_DISTANCE_MAX_SQ as int
    })
}

/// A sure road: the pair is within its role's distance cap and its whole
/// sampled curve avoids restricted terrain in `g`. When such a pair exists,
/// the builder must accept at least one edge.
pub open spec fn viable_pair(
    points: Seq<(usize, usize)>,
    g: Seq<Seq<Terrain>>,
    i: int,
    j: int,
) -> bool {
    &&& 0 <= i < j < points.len()
    &&& under_cap(points, g, i, j)
    &&& forall|k: int|
        0 <= k <= 100 ==> !restricted_cell(
            {
                let p = #[trigger] bezier_point(
                    cell_int(points[i]),
                    route_control(cell_int(points[i]), cell_int(points[j])),
                    cell_int(points[j]),
                    k,
                );
                g[p.0][p.1]
            },
        )
}

/// How many edges of the list touch anchor `i`.
pub open spec fn degree_in(s: Seq<Edge>, i: int) -> int
    decreases s.len(),
{
    if s.len() <= 0 {
        0
    } else {
        degree_in(s.drop_last(), i) + (if s.last().start as int == i || s.last().end as int == i {
            1int
        } else {
            0int
        })
    }
}

/// The edge still waits in the tail of the candidate list.
pub open spec fn pending(sorted: Seq<Edge>, ei: int, e: Edge) -> bool {
    exists|l: int| ei <= l < sorted.len() && sorted[l] == e
}

/// With as many representatives as nodes, every node is its own
/// representative.
proof fn lemma_full_roots(p: Seq<usize>, x: int)
    requires
        uf_parent_wf(p),
        uf_roots(p).len() == p.len(),
        0 <= x < p.len(),
    ensures
        root_of(p, x) == x,
{
    if p[x] as int != x {
        lemma_int_range(0, p.len() as int);
        assert(uf_roots(p).subset_of(set_int_range(0, p.len() as int).remove(x)));
        assert(set_int_range(0, p.len() as int).contains(x));
        assert(set_int_range(0, p.len() as int).remove(x).len() == p.len() - 1);
        lemma_len_subset(uf_roots(p), set_int_range(0, p.len() as int).remove(x));
    }
}

/// A sound candidate edge over the anchor list and the grid the candidates
/// were read from: distinct in-range endpoints, a cost that is exactly the
/// anchors' squared distance, within the city cap, and within the village
/// cap when either endpoint is a village.
pub open spec fn edge_ok(e: Edge, points: Seq<(usize, usize)>, g: Seq<Seq<Terrain>>) -> bool {
    &&& (e.start as int) < points.len()
    &&& (e.end as int) < points.len()
    &&& e.start != e.end
    &&& e.cost as int == crate::spec_distance_squared(
        cell_int(points[e.start as int]),
        cell_int(points[e.end as int]),
    )
    &&& e.cost <= CITY_DISTANCE_MAX_SQ
    &&& (g[points[e.start as int].0 as int][points[e.start as int].1 as int]
        == Terrain::Settlement(SettlementKind::Village)
        || g[points[e.end as int].0 as int][points[e.end as int].1 as int]
        == Terrain::Settlement(SettlementKind::Village)) ==> e.cost <= VILLAGE_DISTANCE_MAX_SQ
}

/// Kruskal's algorithm with per-anchor degree caps and terrain-checked
/// edges. Candidate edges are tried in ascending cost order; an edge is
/// committed only when it joins two components, both endpoints are below
/// their role's degree cap, and its curved path avoids restricted terrain.
/// Returns the accepted edges and the per-anchor accepted-edge counts.
///
/// Roles are read once from the incoming grid, the same grid the candidate
/// caps are read from, so a village anchor keeps its cap of three even
/// after a drawn route overwrites its cell.
///
/// The edge count can never reach the anchor count; no anchor's count
/// passes its role's cap; each count equals the number of accepted edges at
/// that anchor; an anchor with any accepted edge sits under the route code;
/// restricted cells are never written; and when some pair is a sure road
/// ([`viable_pair`]), at least one edge is accepted.
pub fn kruskal(points: &Vec<(usize, usize)>, base: &mut TerrainGrid) -> (r: (Vec<Edge>, Vec<
    usize,
>))
    requires
        old(base).wf(old(base)@.len() as int),
        old(base)@.len() <= ROAD_COORD_LIMIT,
        forall|k: int|
            0 <= k < points@.len() ==> in_bounds(
                old(base)@.len() as int,
                cell_int(#[trigger] points@[k]),
            ),
    ensures
        final(base).wf(old(base)@.len() as int),
        forall|c: (int, int)|
            in_bounds(old(base)@.len() as int, c) ==> final(base)@[c.0][c.1]
                == old(base)@[c.0][c.1] || final(base)@[c.0][c.1] == Terrain::Route,
        forall|c: (int, int)|
            in_bounds(old(base)@.len() as int, c) && restricted_cell(old(base)@[c.0][c.1])
                ==> final(base)@[c.0][c.1] == old(base)@[c.0][c.1],
        points@.len() < 2 ==> final(base)@ == old(base)@,
        r.1@.len() == points@.len(),
        forall|i: int| 0 <= i < points@.len() ==> #[trigger] r.1@[i] <= CITY_MAX_ROUTES,
        forall|i: int|
            0 <= i < points@.len() && village_at(old(base)@, points@[i]) ==> #[trigger] r.1@[i]
                <= VILLAGE_MAX_ROUTES,
        forall|i: int| 0 <= i < points@.len() ==> #[trigger] r.1@[i] == degree_in(r.0@, i),
        points@.len() > 0 ==> r.0@.len() <= points@.len() - 1,
        points@.len() == 0 ==> r.0@.len() == 0,
        forall|i: int|
            0 <= i < points@.len() && #[trigger] r.1@[i] >= 1
                ==> final(base)@[points@[i].0 as int][points@[i].1 as int] == Terrain::Route,
        forall|k: int| 0 <= k < r.0@.len() ==> edge_ok(#[trigger] r.0@[k], points@, old(base)@),
        (exists|i: int, j: int| viable_pair(points@, old(base)@, i, j)) ==> r.0@.len() >= 1,
{
    let n = base.side();
    let ghost nn = n as int;
    let n_pts = points.len();
    let mut edges: Vec<Edge> = Vec::new();
    let mut i: usize = 0;
    while i < n_pts
        invariant
            i <= n_pts,
            n_pts == points@.len(),
            n == old(base)@.len(),
            n <= ROAD_COORD_LIMIT,
            nn == n as int,
            base.wf(nn),
            base@ == old(base)@,
            n_pts < 2 ==> edges@.len() == 0,
            forall|k: int| 0 <= k < n_pts ==> in_bounds(nn, cell_int(#[trigger] points@[k])),
            forall|k: int|
                0 <= k < edges@.len() ==> edge_ok(#[trigger] edges@[k], points@, old(base)@),
            forall|i2: int, j2: int|
                0 <= i2 < j2 < n_pts && i2 < i && #[trigger] under_cap(
                    points@,
                    old(base)@,
                    i2,
                    j2,
                ) ==> edges@.contains(cand_edge(points@, i2, j2)),
        decreases n_pts - i,
    {
        let mut j: usize = i + 1;
        while j < n_pts
            invariant
                i < n_pts,
                i < j <= n_pts,
                n_pts == points@.len(),
                n == old(base)@.len(),
                n <= ROAD_COORD_LIMIT,
                nn == n as int,
                base.wf(nn),
                base@ == old(base)@,
                n_pts < 2 ==> edges@.len() == 0,
                forall|k: int| 0 <= k < n_pts ==> in_bounds(nn, cell_int(#[trigger] points@[k])),
                forall|k: int|
                    0 <= k < edges@.len() ==> edge_ok(#[trigger] edges@[k], points@, old(base)@),
                forall|i2: int, j2: int|
                    0 <= i2 < j2 < n_pts && (i2 < i || (i2 == i && j2 < j)) && #[trigger] under_cap(
                        points@,
                        old(base)@,
                        i2,
                        j2,
                    ) ==> edges@.contains(cand_edge(points@, i2, j2)),
            decreases n_pts - j,
        {
            let ghost edges_pre = edges@;
            let ps = points[i];
            let pe = points[j];
            let dist = distance_sq_u64(ps, pe);
            let ts = base.at(ps.0, ps.1);
            let te = base.at(pe.0, pe.1);
            let max_dist = if ts == Terrain::Settlement(SettlementKind::Village) || te
                == Terrain::Settlement(SettlementKind::Village) {
                VILLAGE_DISTANCE_MAX_SQ
            } else {
                CITY_DISTANCE_MAX_SQ
            };
            if dist <= max_dist {
                edges.push(Edge { cost: dist, start: i, end: j });
            }
            proof {
                assert forall|i2: int, j2: int|
                    0 <= i2 < j2 < n_pts && (i2 < i || (i2 == i && j2 < j + 1))
                        && #[trigger] under_cap(points@, old(base)@, i2, j2)
                    implies edges@.contains(cand_edge(points@, i2, j2)) by {
                    if i2 == i && j2 == j {
                        assert(dist == cand_edge(points@, i2, j2).cost);
                        assert(edges@[edges@.len() - 1] == cand_edge(points@, i2, j2));
                    } else {
                        assert(edges_pre.contains(cand_edge(points@, i2, j2)));
                        let l = choose|l: int|
                            0 <= l < edges_pre.len() && edges_pre[l] == cand_edge(
                                points@,
                                i2,
                                j2,
                            );
                        assert(edges@[l] == cand_edge(points@, i2, j2));
                    }
                }
            }
            j += 1;
        }
        i += 1;
    }
    let sorted = sort_edges(edges);
    proof {
        assert forall|k: int| 0 <= k < sorted@.len() implies edge_ok(
            #[trigger] sorted@[k],
            points@,
            old(base)@,
        ) by {
            sorted@.to_multiset_ensures();
            edges@.to_multiset_ensures();
            assert(sorted@.contains(sorted@[k]));
            assert(sorted@.to_multiset().count(sorted@[k]) > 0);
            assert(edges@.contains(sorted@[k]));
            let l = choose|l: int| 0 <= l < edges@.len() && edges@[l] == sorted@[k];
            assert(edge_ok(edges@[l], points@, old(base)@));
        }
        assert forall|i2: int, j2: int|
            0 <= i2 < j2 < n_pts && #[trigger] under_cap(points@, old(base)@, i2, j2)
            implies sorted@.contains(cand_edge(points@, i2, j2)) by {
            sorted@.to_multiset_ensures();
            edges@.to_multiset_ensures();
            assert(edges@.contains(cand_edge(points@, i2, j2)));
            assert(edges@.to_multiset().count(cand_edge(points@, i2, j2)) > 0);
        }
    }
    let mut is_village: Vec<bool> = Vec::new();
    let mut vi: usize = 0;
    while vi < n_pts
        invariant
            vi <= n_pts,
            n_pts == points@.len(),
            nn == n as int,
            n == old(base)@.len(),
            base.wf(nn),
            base@ == old(base)@,
            is_village@.len() == vi,
            forall|k: int| 0 <= k < n_pts ==> in_bounds(nn, cell_int(#[trigger] points@[k])),
            forall|k: int|
                0 <= k < vi ==> #[trigger] is_village@[k] == village_at(old(base)@, points@[k]),
        decreases n_pts - vi,
    {
        let p = points[vi];
        is_village.push(base.at(p.0, p.1) == Terrain::Settlement(SettlementKind::Village));
        vi += 1;
    }
    let mut uf = UnionFind::new(n_pts);
    let mut connections: Vec<usize> = Vec::new();
    let mut ci: usize = 0;
    while ci < n_pts
        invariant
            ci <= n_pts,
            connections@.len() == ci,
            forall|k: int| 0 <= k < ci ==> #[trigger] connections@[k] == 0,
        decreases n_pts - ci,
    {
        connections.push(0);
        ci += 1;
    }
    let mut mst: Vec<Edge> = Vec::new();
    let mut ei: usize = 0;
    proof {
        assert forall|i2: int, j2: int|
            #[trigger] viable_pair(points@, old(base)@, i2, j2) implies mst@.len() >= 1 || pending(
            sorted@,
            ei as int,
            cand_edge(points@, i2, j2),
        ) by {
            assert(under_cap(points@, old(base)@, i2, j2));
            assert(sorted@.contains(cand_edge(points@, i2, j2)));
            let l = choose|l: int|
                0 <= l < sorted@.len() && sorted@[l] == cand_edge(points@, i2, j2);
            assert(pending(sorted@, 0, cand_edge(points@, i2, j2)));
        }
    }
    while ei < sorted.len()
        invariant
            ei <= sorted@.len(),
            n_pts == points@.len(),
            n == old(base)@.len(),
            n <= ROAD_COORD_LIMIT,
            nn == n as int,
            base.wf(nn),
            n_pts < 2 ==> base@ == old(base)@,
            forall|k: int| 0 <= k < n_pts ==> in_bounds(nn, cell_int(#[trigger] points@[k])),
            forall|k: int|
                0 <= k < sorted@.len() ==> edge_ok(#[trigger] sorted@[k], points@, old(base)@),
            uf.wf(),
            uf.len() == n_pts as int,
            mst@.len() + uf.num_sets == n_pts,
            connections@.len() == n_pts,
            is_village@.len() == n_pts,
            forall|k: int|
                0 <= k < n_pts ==> #[trigger] is_village@[k] == village_at(old(base)@, points@[k]),
            forall|k: int| 0 <= k < n_pts ==> #[trigger] connections@[k] <= CITY_MAX_ROUTES,
            forall|k: int|
                0 <= k < n_pts && is_village@[k] ==> #[trigger] connections@[k]
                    <= VILLAGE_MAX_ROUTES,
            forall|k: int|
                0 <= k < n_pts ==> #[trigger] connections@[k] == degree_in(mst@, k),
            mst@.len() == 0 ==> forall|k: int| 0 <= k < n_pts ==> #[trigger] connections@[k] == 0,
            forall|k: int|
                0 <= k < n_pts && #[trigger] connections@[k] >= 1
                    ==> base@[points@[k].0 as int][points@[k].1 as int] == Terrain::Route,
            forall|c: (int, int)|
                in_bounds(nn, c) ==> base@[c.0][c.1] == old(base)@[c.0][c.1] || base@[c.0][c.1]
                    == Terrain::Route,
            forall|c: (int, int)|
                in_bounds(nn, c) && restricted_cell(old(base)@[c.0][c.1]) ==> base@[c.0][c.1]
                    == old(base)@[c.0][c.1],
            forall|k: int|
                0 <= k < mst@.len() ==> edge_ok(#[trigger] mst@[k], points@, old(base)@),
            forall|i2: int, j2: int|
                #[trigger] viable_pair(points@, old(base)@, i2, j2) ==> mst@.len() >= 1 || pending(
                    sorted@,
                    ei as int,
                    cand_edge(points@, i2, j2),
                ),
        decreases sorted@.len() - ei,
    {
        let ghost mst_pre = mst@;
        let ghost conn_pre = connections@;
        let edge = sorted[ei];
        let rs = uf.find(edge.start);
        let re = uf.find(edge.end);
        let max_conn = if is_village[edge.start] || is_village[edge.end] {
            VILLAGE_MAX_ROUTES
        } else {
            CITY_MAX_ROUTES
        };
        let room = connections[edge.start] < max_conn && connections[edge.end] < max_conn;
        let ps = points[edge.start];
        let pe = points[edge.end];
        let ghost bpre = base@;
        let drew = if rs != re && room {
            proof {
                assert(base@.len() == nn && nn == n as int && n <= ROAD_COORD_LIMIT);
            }
            tracer_route(base, ps, pe)
        } else {
            false
        };
        if drew {
            proof {
                lemma_bezier_endpoints(
                    cell_int(ps),
                    route_control(cell_int(ps), cell_int(pe)),
                    cell_int(pe),
                );
                assert(on_route(cell_int(ps), cell_int(pe), cell_int(ps)));
                assert(on_route(cell_int(ps), cell_int(pe), cell_int(pe)));
                assert(base@[ps.0 as int][ps.1 as int] == Terrain::Route);
                assert(base@[pe.0 as int][pe.1 as int] == Terrain::Route);
                assert forall|k: int|
                    0 <= k < n_pts && #[trigger] connections@[k] >= 1
                        implies base@[points@[k].0 as int][points@[k].1 as int]
                    == Terrain::Route by {
                    assert(bpre[points@[k].0 as int][points@[k].1 as int] == Terrain::Route);
                    assert(in_bounds(nn, cell_int(points@[k])));
                }
                assert forall|c: (int, int)|
                    in_bounds(nn, c) && restricted_cell(old(base)@[c.0][c.1])
                    implies base@[c.0][c.1] == old(base)@[c.0][c.1] by {
                    assert(bpre[c.0][c.1] == old(base)@[c.0][c.1]);
                    if on_route(cell_int(ps), cell_int(pe), c) {
                        let k = choose|k: int|
                            0 <= k <= 100 && c == #[trigger] bezier_point(
                                cell_int(ps),
                                route_control(cell_int(ps), cell_int(pe)),
                                cell_int(pe),
                                k,
                            );
                        assert(!restricted_cell(bpre[c.0][c.1]));
                    }
                }
            }
            uf.union(edge.start, edge.end);
            mst.push(edge);
            let cs = connections[edge.start];
            connections.set(edge.start, cs + 1);
            let ce = connections[edge.end];
            connections.set(edge.end, ce + 1);
            proof {
                assert(mst@.drop_last() =~= mst_pre);
                assert forall|k: int| 0 <= k < n_pts implies #[trigger] connections@[k]
                    == degree_in(mst@, k) by {
                    assert(degree_in(mst@, k) == degree_in(mst_pre, k) + (
                    if mst@.last().start as int == k || mst@.last().end as int == k {
                        1int
                    } else {
                        0int
                    }));
                }
            }
        }
        let ghost ei_next = ei + 1;
        proof {
            assert forall|i2: int, j2: int|
                #[trigger] viable_pair(points@, old(base)@, i2, j2) implies mst@.len() >= 1
                || pending(sorted@, ei_next, cand_edge(points@, i2, j2)) by {
                if mst@.len() == 0 {
                    assert(mst_pre.len() == 0);
                    assert(pending(sorted@, ei as int, cand_edge(points@, i2, j2)));
                    let e2 = cand_edge(points@, i2, j2);
                    let l = choose|l: int| ei <= l < sorted@.len() && sorted@[l] == e2;
                    if l == ei {
                        // this very edge was considered; with no acceptance every
                        // branch that could have skipped it is contradictory
                        assert(edge == e2);
                        assert(edge.start as int == i2 && edge.end as int == j2);
                        if rs == re {
                            assert(uf.num_sets == n_pts);
                            lemma_uf_roots_card(uf.parent@);
                            lemma_full_roots(uf.parent@, i2);
                            lemma_full_roots(uf.parent@, j2);
                            assert(false);
                        } else if !room {
                            assert(connections@[i2] >= max_conn || connections@[j2] >= max_conn);
                            assert(max_conn >= VILLAGE_MAX_ROUTES);
                            assert(false);
                        } else {
                            assert(!drew);
                            assert(!(forall|k: int|
                                0 <= k <= 100 ==> !restricted_cell(
                                    {
                                        let p = #[trigger] bezier_point(
                                            cell_int(ps),
                                            route_control(cell_int(ps), cell_int(pe)),
                                            cell_int(pe),
                                            k,
                                        );
                                        bpre[p.0][p.1]
                                    },
                                )));
                            let k = choose|k: int|
                                0 <= k <= 100 && restricted_cell(
                                    {
                                        let p = #[trigger] bezier_point(
                                            cell_int(ps),
                                            route_control(cell_int(ps), cell_int(pe)),
                                            cell_int(pe),
                                            k,
                                        );
                                        bpre[p.0][p.1]
                                    },
                                );
                            let sctl = route_control(cell_int(ps), cell_int(pe));
                            let p = bezier_point(cell_int(ps), sctl, cell_int(pe), k);
                            lemma_bezier_coord_range(
                                ps.0 as int,
                                sctl.0,
                                pe.0 as int,
                                k,
                            );
                            lemma_bezier_coord_range(
                                ps.1 as int,
                                sctl.1,
                                pe.1 as int,
                                k,
                            );
                            assert(in_bounds(nn, p));
                            assert(!restricted_cell(old(base)@[p.0][p.1]));
                            assert(bpre[p.0][p.1] == old(base)@[p.0][p.1] || bpre[p.0][p.1]
                                == Terrain::Route);
                            assert(false);
                        }
                    } else {
                        assert(pending(sorted@, ei_next, e2));
                    }
                }
            }
        }
        ei += 1;
    }
    proof {
        lemma_uf_roots_card(uf.parent@);
        if exists|i2: int, j2: int| viable_pair(points@, old(base)@, i2, j2) {
            let (i2, j2) = choose|i2: int, j2: int| viable_pair(points@, old(base)@, i2, j2);
            assert(mst@.len() >= 1 || pending(sorted@, sorted@.len() as int, cand_edge(points@, i2, j2)));
        }
    }
    (mst, connections)
}

} // verus!
