//! Ordered threshold rules that turn three scalar fields into one coded grid.
//!
//! The rules run in a fixed order and each may overwrite cells written by an
//! earlier one; the layering is intentional. All thresholds are fixed-point
//! thousandths of the nominal `[0, 1]` sample range.

use vstd::prelude::*;

use crate::grid::BiomeKind;
use crate::grid::ScalarGrid;
use crate::grid::Terrain;
use crate::grid::TerrainGrid;
use crate::grid::row_major_lt;
use crate::zone::Mask;
use crate::zone::adj4;
use crate::zone::cell_int;
use crate::zone::dilate;
use crate::zone::fill_path;
use crate::zone::fill_reaches;
use crate::zone::flood;
use crate::zone::in_bounds;
use crate::zone::list_has;
use crate::zone::mask_at;
use crate::zone::near_true;
use crate::zone::component;
use crate::zone::prune_small_components;
use crate::zone::seeds_of;
use crate::zone::target_mask;

verus! {

/// Altitude below this is deep water.
pub const DEEP_WATER_THRESHOLD: u32 = 300;

/// Deep-water cells with altitude below this are narrowed to shallow water.
pub const DEEP_THRESHOLD: u32 = 200;

/// Altitude above this is mountain.
pub const MOUNTAIN_THRESHOLD: u32 = 700;

/// Unclassified cells below this are "plain"; at or above, dark forest.
pub const DARK_FOREST_THRESHOLD: u32 = 450;

/// Mountain cells with altitude above this carry snow.
pub const SNOW_THRESHOLD: u32 = 820;

/// Temperature below this makes a cell glacial.
pub const GLACIAL_THRESHOLD: u32 = 250;

/// Temperature above this makes a cell hot desert.
pub const DESERT_THRESHOLD: u32 = 750;

/// Cells near water only become sand when their altitude is below this.
pub const SAND_ALTITUDE_LIMIT: u32 = 700;

/// Chebyshev radius of the sand ring stamped around water.
pub const SAND_RADIUS: usize = 2;

/// Unclassified cells up to this value can be swallowed by marsh growth.
pub const MARSH_VALUE_LIMIT: u32 = 350;

/// Elevation written back into cells when a small desert or glacial
/// component is pruned to plain.
pub const PLAIN_RESET_VALUE: u32 = 300;

/// Desert or glacial components smaller than this are pruned.
pub const MIN_REGION_SIZE: usize = 40;

pub open spec fn is_water_code(t: Terrain) -> bool {
    t == Terrain::Biome(BiomeKind::Water) || t == Terrain::Biome(BiomeKind::DeepWater)
}

/// What the deep-water rule leaves in a cell.
pub open spec fn deep_water_cell(old_cell: Terrain, alt: u32, threshold: u32) -> Terrain {
    if alt < threshold {
        Terrain::Biome(BiomeKind::DeepWater)
    } else {
        old_cell
    }
}

/// What the water-narrowing rule leaves in a cell: only cells already deep
/// water are refined, so this rule narrows the prior set.
pub open spec fn water_cell(old_cell: Terrain, alt: u32, threshold: u32) -> Terrain {
    if old_cell == Terrain::Biome(BiomeKind::DeepWater) && alt < threshold {
        Terrain::Biome(BiomeKind::Water)
    } else {
        old_cell
    }
}

/// What the mountain rule leaves in a cell; snow takes precedence.
pub open spec fn mountain_cell(
    old_cell: Terrain,
    alt: u32,
    mountain_threshold: u32,
    snow_threshold: u32,
) -> Terrain {
    if alt > mountain_threshold {
        if alt > snow_threshold {
            Terrain::Biome(BiomeKind::MountainSnow)
        } else {
            Terrain::Biome(BiomeKind::Mountain)
        }
    } else {
        old_cell
    }
}

/// Cells the hot-desert rule refuses to overwrite.
pub open spec fn desert_excluded(t: Terrain) -> bool {
    ||| is_water_code(t)
    ||| t == Terrain::Biome(BiomeKind::MountainSnow)
    ||| t == Terrain::Biome(BiomeKind::Mountain)
}

/// What the hot-desert scan leaves in a cell.
pub open spec fn desert_cell(old_cell: Terrain, temp: u32, threshold: u32) -> Terrain {
    if temp > threshold && !desert_excluded(old_cell) {
        Terrain::Biome(BiomeKind::DesertHot)
    } else {
        old_cell
    }
}

/// Cells the glacial rule refuses to overwrite: as the desert rule, plus
/// marsh.
pub open spec fn glacial_excluded(t: Terrain) -> bool {
    desert_excluded(t) || t == Terrain::Biome(BiomeKind::Marsh)
}

/// What the glacial scan leaves in a cell.
pub open spec fn glacial_cell(old_cell: Terrain, temp: u32, threshold: u32) -> Terrain {
    if temp < threshold && !glacial_excluded(old_cell) {
        Terrain::Biome(BiomeKind::Glacial)
    } else {
        old_cell
    }
}

/// True when some cell within the given Chebyshev radius of `(i, j)`
/// (the cell itself included) carries a water code.
pub open spec fn near_water(g: Seq<Seq<Terrain>>, n: int, i: int, j: int, radius: int) -> bool {
    exists|wi: int, wj: int|
        0 <= wi < n && 0 <= wj < n && i - radius <= wi <= i + radius && j - radius <= wj <= j
            + radius && is_water_code(#[trigger] g[wi][wj])
}

/// What the sand-ring rule leaves in a cell.
pub open spec fn sand_cell(old_cell: Terrain, alt: u32, near: bool) -> Terrain {
    if near && !is_water_code(old_cell) && alt < SAND_ALTITUDE_LIMIT {
        Terrain::Biome(BiomeKind::Sand)
    } else {
        old_cell
    }
}

/// Cells the marsh rule may swallow: water, sand, or low unclassified
/// terrain.
pub open spec fn marshable(t: Terrain) -> bool {
    ||| is_water_code(t)
    ||| t == Terrain::Biome(BiomeKind::Sand)
    ||| match t {
        Terrain::Unclassified(v) => v <= MARSH_VALUE_LIMIT,
        _ => false,
    }
}

/// Two grids that agree on which cells are water agree on water proximity.
proof fn lemma_near_water_congruence(
    g1: Seq<Seq<Terrain>>,
    g2: Seq<Seq<Terrain>>,
    n: int,
    i: int,
    j: int,
    radius: int,
)
    requires
        forall|a: int, b: int|
            0 <= a < n && 0 <= b < n ==> is_water_code(#[trigger] g1[a][b]) == is_water_code(
                #[trigger] g2[a][b],
            ),
    ensures
        near_water(g1, n, i, j, radius) == near_water(g2, n, i, j, radius),
{
    if near_water(g1, n, i, j, radius) {
        let (wi, wj) = choose|wi: int, wj: int|
            0 <= wi < n && 0 <= wj < n && i - radius <= wi <= i + radius && j - radius <= wj <= j
                + radius && is_water_code(#[trigger] g1[wi][wj]);
        assert(is_water_code(g2[wi][wj]));
    }
    if near_water(g2, n, i, j, radius) {
        let (wi, wj) = choose|wi: int, wj: int|
            0 <= wi < n && 0 <= wj < n && i - radius <= wi <= i + radius && j - radius <= wj <= j
                + radius && is_water_code(#[trigger] g2[wi][wj]);
        assert(is_water_code(g1[wi][wj]));
    }
}

/// Scans the Chebyshev window of radius `radius` around `(i, j)` for a water
/// cell.
fn water_in_window(base: &TerrainGrid, i: usize, j: usize, radius: usize) -> (found: bool)
    requires
        base.wf(base@.len() as int),
        i < base@.len(),
        j < base@.len(),
    ensures
        found == near_water(base@, base@.len() as int, i as int, j as int, radius as int),
{
    let n = base.side();
    let lo_i: usize = if i >= radius {
        i - radius
    } else {
        0
    };
    let hi_i: usize = if n - 1 - i <= radius {
        n - 1
    } else {
        i + radius
    };
    let lo_j: usize = if j >= radius {
        j - radius
    } else {
        0
    };
    let hi_j: usize = if n - 1 - j <= radius {
        n - 1
    } else {
        j + radius
    };
    let mut wi: usize = lo_i;
    while wi <= hi_i
        invariant
            base.wf(n as int),
            n == base@.len(),
            i < n,
            j < n,
            lo_i <= wi <= hi_i + 1,
            hi_i < n,
            hi_j < n,
            i - radius <= lo_i <= i,
            lo_i <= i - radius || lo_i == 0,
            i <= hi_i <= i + radius,
            i + radius <= hi_i || hi_i == n - 1,
            j - radius <= lo_j <= j,
            lo_j <= j - radius || lo_j == 0,
            j <= hi_j <= j + radius,
            j + radius <= hi_j || hi_j == n - 1,
            forall|a: int, b: int|
                lo_i <= a < wi && lo_j <= b <= hi_j ==> !is_water_code(#[trigger] base@[a][b]),
        decreases hi_i + 1 - wi,
    {
        let mut wj: usize = lo_j;
        while wj <= hi_j
            invariant
                base.wf(n as int),
                n == base@.len(),
                i < n,
                j < n,
                lo_i <= wi <= hi_i,
                lo_j <= wj <= hi_j + 1,
                hi_i < n,
                hi_j < n,
                i - radius <= lo_i <= i,
                i <= hi_i <= i + radius,
                j - radius <= lo_j <= j,
                j <= hi_j <= j + radius,
                forall|a: int, b: int|
                    lo_i <= a < wi && lo_j <= b <= hi_j ==> !is_water_code(#[trigger] base@[a][b]),
                forall|b: int| lo_j <= b < wj ==> !is_water_code(#[trigger] base@[wi as int][b]),
            decreases hi_j + 1 - wj,
        {
            let t = base.at(wi, wj);
            if t == Terrain::Biome(BiomeKind::Water) || t == Terrain::Biome(BiomeKind::DeepWater) {
                proof {
                    assert(is_water_code(base@[wi as int][wj as int]));
                }
                return true;
            }
            wj += 1;
        }
        wi += 1;
    }
    false
}

/// Step 3: every non-water cell of low altitude within `radius` of water
/// becomes sand.
pub fn apply_sand_biome(base: &mut TerrainGrid, altitude: &ScalarGrid, radius: usize)
    requires
        old(base).wf(old(base)@.len() as int),
        altitude.wf(old(base)@.len() as int),
    ensures
        final(base).wf(old(base)@.len() as int),
        forall|r: int, c: int|
            0 <= r < old(base)@.len() && 0 <= c < old(base)@.len() ==> final(base)@[r][c]
                == sand_cell(
                #[trigger] old(base)@[r][c],
                altitude@[r][c],
                near_water(old(base)@, old(base)@.len() as int, r, c, radius as int),
            ),
{
    let n = base.side();
    let mut i: usize = 0;
    while i < n
        invariant
            i <= n,
            n == old(base)@.len(),
            base.wf(n as int),
            altitude.wf(n as int),
            forall|r: int, c: int|
                0 <= r < n && 0 <= c < n ==> #[trigger] base@[r][c] == (if r < i {
                    sand_cell(
                        old(base)@[r][c],
                        altitude@[r][c],
                        near_water(old(base)@, n as int, r, c, radius as int),
                    )
                } else {
                    old(base)@[r][c]
                }),
        decreases n - i,
    {
        let mut j: usize = 0;
        while j < n
            invariant
                i < n,
                j <= n,
                n == old(base)@.len(),
                base.wf(n as int),
                altitude.wf(n as int),
                forall|r: int, c: int|
                    0 <= r < n && 0 <= c < n ==> #[trigger] base@[r][c] == (if row_major_lt(
                        r,
                        c,
                        i as int,
                        j as int,
                    ) {
                        sand_cell(
                            old(base)@[r][c],
                            altitude@[r][c],
                            near_water(old(base)@, n as int, r, c, radius as int),
                        )
                    } else {
                        old(base)@[r][c]
                    }),
            decreases n - j,
        {
            proof {
                assert forall|a: int, b: int| 0 <= a < n && 0 <= b < n implies is_water_code(
                    #[trigger] base@[a][b],
                ) == is_water_code(#[trigger] old(base)@[a][b]) by {
                    assert(base@[a][b] == (if row_major_lt(a, b, i as int, j as int) {
                        sand_cell(
                            old(base)@[a][b],
                            altitude@[a][b],
                            near_water(old(base)@, n as int, a, b, radius as int),
                        )
                    } else {
                        old(base)@[a][b]
                    }));
                }
                lemma_near_water_congruence(
                    base@,
                    old(base)@,
                    n as int,
                    i as int,
                    j as int,
                    radius as int,
                );
            }
            let t = base.at(i, j);
            if t != Terrain::Biome(BiomeKind::Water) && t != Terrain::Biome(BiomeKind::DeepWater)
                && altitude.at(i, j) < SAND_ALTITUDE_LIMIT {
                if water_in_window(base, i, j, radius) {
                    base.set(i, j, Terrain::Biome(BiomeKind::Sand));
                }
            }
            j += 1;
        }
        i += 1;
    }
}

/// A marsh trigger: a humid marshable cell with a water code in its
/// 8-neighbourhood, the cell itself included.
pub open spec fn marsh_seed(
    g: Seq<Seq<Terrain>>,
    hum: Seq<Seq<u32>>,
    thr: u32,
    n: int,
    c: (int, int),
) -> bool {
    &&& in_bounds(n, c)
    &&& marshable(g[c.0][c.1])
    &&& hum[c.0][c.1] > thr
    &&& near_water(g, n, c.0, c.1, 1)
}

/// Why a cell turned to marsh: a trigger lies within Chebyshev distance 3.
pub open spec fn marsh_cause(
    g: Seq<Seq<Terrain>>,
    hum: Seq<Seq<u32>>,
    thr: u32,
    n: int,
    c: (int, int),
) -> bool {
    exists|s: (int, int)| #[trigger] marsh_seed(g, hum, thr, n, s) && cheb_le(s, c, 3)
}

/// No marsh trigger lies strictly before the scan position.
pub open spec fn no_seed_before(
    g0: Seq<Seq<Terrain>>,
    hum: Seq<Seq<u32>>,
    thr: u32,
    n: int,
    i: int,
    j: int,
) -> bool {
    forall|d: (int, int)|
        in_bounds(n, d) && row_major_lt(d.0, d.1, i, j) ==> !#[trigger] marsh_seed(
            g0,
            hum,
            thr,
            n,
            d,
        )
}

/// Every row-major-first trigger before the scan position already carries
/// the marsh code.
pub open spec fn first_seed_marshed(
    g: Seq<Seq<Terrain>>,
    g0: Seq<Seq<Terrain>>,
    hum: Seq<Seq<u32>>,
    thr: u32,
    n: int,
    i: int,
    j: int,
) -> bool {
    forall|c: (int, int)|
        #[trigger] marsh_seed(g0, hum, thr, n, c) && (forall|d: (int, int)|
            row_major_lt(d.0, d.1, c.0, c.1) ==> !#[trigger] marsh_seed(g0, hum, thr, n, d))
            && row_major_lt(c.0, c.1, i, j) ==> g[c.0][c.1] == Terrain::Biome(BiomeKind::Marsh)
}

/// Step 6: marsh growth. A humid cell sitting on water, sand or low terrain
/// and touching water seeds a marsh, which then spreads to every humid
/// marshable cell within Chebyshev distance 3.
///
/// Growth is two-phase and order dependent: later seeds read cells already
/// swallowed by earlier ones, so the exact shape depends on scan order. The
/// contract bounds the result on both sides: a cell either keeps its value,
/// or it is humid, was marshable, and lies within reach of a trigger in the
/// incoming grid; and the row-major-first trigger of the incoming grid
/// always ends under the marsh code.
#[verifier::rlimit(100)]
pub fn apply_marsh_biome(base: &mut TerrainGrid, humidity: &ScalarGrid, humidity_threshold: u32)
    requires
        old(base).wf(old(base)@.len() as int),
        humidity.wf(old(base)@.len() as int),
    ensures
        final(base).wf(old(base)@.len() as int),
        forall|r: int, c: int|
            0 <= r < old(base)@.len() && 0 <= c < old(base)@.len() ==> final(base)@[r][c]
                == #[trigger] old(base)@[r][c] || (final(base)@[r][c] == Terrain::Biome(
                BiomeKind::Marsh,
            ) && humidity@[r][c] > humidity_threshold && marshable(old(base)@[r][c]) && marsh_cause(
                old(base)@,
                humidity@,
                humidity_threshold,
                old(base)@.len() as int,
                (r, c),
            )),
        forall|c: (int, int)|
            #[trigger] marsh_seed(
                old(base)@,
                humidity@,
                humidity_threshold,
                old(base)@.len() as int,
                c,
            ) && (forall|d: (int, int)|
                row_major_lt(d.0, d.1, c.0, c.1) ==> !#[trigger] marsh_seed(
                    old(base)@,
                    humidity@,
                    humidity_threshold,
                    old(base)@.len() as int,
                    d,
                )) ==> final(base)@[c.0][c.1] == Terrain::Biome(BiomeKind::Marsh),
{
    let n = base.side();
    let ghost nn = n as int;
    let ghost thr = humidity_threshold;
    let mut i: usize = 0;
    while i < n
        invariant
            i <= n,
            n == old(base)@.len(),
            nn == n as int,
            thr == humidity_threshold,
            base.wf(nn),
            humidity.wf(nn),
            forall|r: int, c: int|
                0 <= r < n && 0 <= c < n ==> #[trigger] base@[r][c] == old(base)@[r][c] || (
                base@[r][c] == Terrain::Biome(BiomeKind::Marsh) && humidity@[r][c] > thr
                    && marshable(old(base)@[r][c]) && marsh_cause(
                    old(base)@,
                    humidity@,
                    thr,
                    nn,
                    (r, c),
                )),
            no_seed_before(old(base)@, humidity@, thr, nn, i as int, 0) ==> base@ == old(
                base,
            )@,
            first_seed_marshed(base@, old(base)@, humidity@, thr, nn, i as int, 0),
        decreases n - i,
    {
        let mut j: usize = 0;
        while j < n
            invariant
                i < n,
                j <= n,
                n == old(base)@.len(),
                nn == n as int,
                thr == humidity_threshold,
                base.wf(nn),
                humidity.wf(nn),
                forall|r: int, c: int|
                    0 <= r < n && 0 <= c < n ==> #[trigger] base@[r][c] == old(base)@[r][c] || (
                    base@[r][c] == Terrain::Biome(BiomeKind::Marsh) && humidity@[r][c] > thr
                        && marshable(old(base)@[r][c]) && marsh_cause(
                        old(base)@,
                        humidity@,
                        thr,
                        nn,
                        (r, c),
                    )),
                no_seed_before(old(base)@, humidity@, thr, nn, i as int, j as int) ==> base@
                    == old(base)@,
                first_seed_marshed(base@, old(base)@, humidity@, thr, nn, i as int, j as int),
            decreases n - j,
        {
            let ghost bhead = base@;
            let t = base.at(i, j);
            let m = marshable_exec(t);
            let humid_ok = humidity.at(i, j) > humidity_threshold;
            let wet = if humid_ok && m {
                water_in_window(base, i, j, 1)
            } else {
                false
            };
            if wet {
                proof {
                    // the trigger holds of the incoming grid: a marshable cell
                    // was never overwritten, and a water cell seen now was
                    // water from the start
                    assert(base@[i as int][j as int] == old(base)@[i as int][j as int]);
                    assert(marshable(old(base)@[i as int][j as int]));
                    assert(humidity@[i as int][j as int] > thr);
                    assert(near_water(base@, nn, i as int, j as int, 1));
                    let (wi, wj) = choose|wi: int, wj: int|
                        0 <= wi < nn && 0 <= wj < nn && i - 1 <= wi <= i + 1 && j - 1 <= wj <= j
                            + 1 && is_water_code(#[trigger] base@[wi][wj]);
                    assert(is_water_code(old(base)@[wi][wj]));
                    assert(near_water(old(base)@, nn, i as int, j as int, 1));
                    assert(marsh_seed(old(base)@, humidity@, thr, nn, (i as int, j as int)));
                    assert(cheb_le((i as int, j as int), (i as int, j as int), 3));
                }
                base.set(i, j, Terrain::Biome(BiomeKind::Marsh));
                let ghost bseed = base@;
                let lo_ai: usize = if i >= 3 {
                    i - 3
                } else {
                    0
                };
                let hi_ai: usize = if n - 1 - i <= 3 {
                    n - 1
                } else {
                    i + 3
                };
                let lo_aj: usize = if j >= 3 {
                    j - 3
                } else {
                    0
                };
                let hi_aj: usize = if n - 1 - j <= 3 {
                    n - 1
                } else {
                    j + 3
                };
                let mut ai: usize = lo_ai;
                while ai <= hi_ai
                    invariant
                        lo_ai <= ai <= hi_ai + 1,
                        lo_aj <= j <= hi_aj,
                        i - 3 <= lo_ai,
                        hi_ai <= i + 3,
                        j - 3 <= lo_aj,
                        hi_aj <= j + 3,
                        hi_ai < n,
                        hi_aj < n,
                        i < n,
                        j < n,
                        n == old(base)@.len(),
                        nn == n as int,
                        thr == humidity_threshold,
                        base.wf(nn),
                        humidity.wf(nn),
                        bseed.len() == nn,
                        marsh_seed(old(base)@, humidity@, thr, nn, (i as int, j as int)),
                        forall|r: int, c: int|
                            0 <= r < n && 0 <= c < n ==> #[trigger] base@[r][c] == old(
                                base,
                            )@[r][c] || (base@[r][c] == Terrain::Biome(BiomeKind::Marsh)
                                && humidity@[r][c] > thr && marshable(old(base)@[r][c])
                                && marsh_cause(old(base)@, humidity@, thr, nn, (r, c))),
                        forall|r: int, c: int|
                            0 <= r < n && 0 <= c < n && #[trigger] bseed[r][c] == Terrain::Biome(
                                BiomeKind::Marsh,
                            ) ==> base@[r][c] == Terrain::Biome(BiomeKind::Marsh),
                    decreases hi_ai + 1 - ai,
                {
                    let mut aj: usize = lo_aj;
                    while aj <= hi_aj
                        invariant
                            lo_ai <= ai <= hi_ai,
                            lo_aj <= aj <= hi_aj + 1,
                            i - 3 <= lo_ai,
                            hi_ai <= i + 3,
                            j - 3 <= lo_aj,
                            hi_aj <= j + 3,
                            hi_ai < n,
                            hi_aj < n,
                            i < n,
                            j < n,
                            n == old(base)@.len(),
                            nn == n as int,
                            thr == humidity_threshold,
                            base.wf(nn),
                            humidity.wf(nn),
                            bseed.len() == nn,
                            marsh_seed(old(base)@, humidity@, thr, nn, (i as int, j as int)),
                            forall|r: int, c: int|
                                0 <= r < n && 0 <= c < n ==> #[trigger] base@[r][c] == old(
                                    base,
                                )@[r][c] || (base@[r][c] == Terrain::Biome(BiomeKind::Marsh)
                                    && humidity@[r][c] > thr && marshable(old(base)@[r][c])
                                    && marsh_cause(old(base)@, humidity@, thr, nn, (r, c))),
                            forall|r: int, c: int|
                                0 <= r < n && 0 <= c < n && #[trigger] bseed[r][c]
                                    == Terrain::Biome(BiomeKind::Marsh) ==> base@[r][c]
                                    == Terrain::Biome(BiomeKind::Marsh),
                        decreases hi_aj + 1 - aj,
                    {
                        let at = base.at(ai, aj);
                        if marshable_exec(at) && humidity.at(ai, aj) > humidity_threshold {
                            proof {
                                assert(base@[ai as int][aj as int] == old(
                                    base,
                                )@[ai as int][aj as int]);
                                assert(cheb_le(
                                    (i as int, j as int),
                                    (ai as int, aj as int),
                                    3,
                                ));
                            }
                            base.set(ai, aj, Terrain::Biome(BiomeKind::Marsh));
                        }
                        aj += 1;
                    }
                    ai += 1;
                }
                proof {
                    assert(bseed[i as int][j as int] == Terrain::Biome(BiomeKind::Marsh));
                    assert(base@[i as int][j as int] == Terrain::Biome(BiomeKind::Marsh));
                    assert forall|r: int, c: int|
                        0 <= r < n && 0 <= c < n && #[trigger] bhead[r][c] == Terrain::Biome(
                            BiomeKind::Marsh,
                        ) implies base@[r][c] == Terrain::Biome(BiomeKind::Marsh) by {
                        assert(bseed[r][c] == Terrain::Biome(BiomeKind::Marsh));
                    }
                }
            }
            proof {
                // a trigger of the incoming grid forces the branch: had the
                // scan not fired here, nothing earlier fired either, so the
                // grid still read exactly as the incoming one
                assert(first_seed_marshed(base@, old(base)@, humidity@, thr, nn, i as int, j + 1))
                    by {
                    assert forall|c: (int, int)|
                        #[trigger] marsh_seed(old(base)@, humidity@, thr, nn, c) && (forall|
                            d: (int, int),
                        |
                            row_major_lt(d.0, d.1, c.0, c.1) ==> !#[trigger] marsh_seed(
                                old(base)@,
                                humidity@,
                                thr,
                                nn,
                                d,
                            )) && row_major_lt(c.0, c.1, i as int, j + 1) implies base@[c.0][c.1]
                        == Terrain::Biome(BiomeKind::Marsh) by {
                        if wet && c != (i as int, j as int) {
                            assert(row_major_lt(c.0, c.1, i as int, j as int));
                            assert(bhead[c.0][c.1] == Terrain::Biome(BiomeKind::Marsh));
                            assert(base@[c.0][c.1] == Terrain::Biome(BiomeKind::Marsh));
                        }
                        if c == (i as int, j as int) && !wet {
                            assert(no_seed_before(
                                old(base)@,
                                humidity@,
                                thr,
                                nn,
                                i as int,
                                j as int,
                            ));
                            assert(bhead == old(base)@);
                            assert(marshable(old(base)@[i as int][j as int])
                                && humidity@[i as int][j as int] > thr && near_water(
                                old(base)@,
                                nn,
                                i as int,
                                j as int,
                                1,
                            ));
                            assert(m == marshable(bhead[i as int][j as int]));
                            assert(humid_ok && m);
                            assert(wet == near_water(bhead, nn, i as int, j as int, 1));
                            assert(false);
                        }
                    }
                }
                assert(no_seed_before(old(base)@, humidity@, thr, nn, i as int, j + 1) ==> base@
                    == old(base)@) by {
                    if no_seed_before(old(base)@, humidity@, thr, nn, i as int, j + 1) {
                        assert(no_seed_before(
                            old(base)@,
                            humidity@,
                            thr,
                            nn,
                            i as int,
                            j as int,
                        ));
                        assert(!marsh_seed(
                            old(base)@,
                            humidity@,
                            thr,
                            nn,
                            (i as int, j as int),
                        ));
                        assert(bhead == old(base)@);
                        assert(!wet);
                    }
                }
            }
            j += 1;
        }
        proof {
            assert(first_seed_marshed(base@, old(base)@, humidity@, thr, nn, i + 1, 0)) by {
                assert forall|c: (int, int)|
                    #[trigger] marsh_seed(old(base)@, humidity@, thr, nn, c) && (forall|
                        d: (int, int),
                    |
                        row_major_lt(d.0, d.1, c.0, c.1) ==> !#[trigger] marsh_seed(
                            old(base)@,
                            humidity@,
                            thr,
                            nn,
                            d,
                        )) && row_major_lt(c.0, c.1, i + 1, 0) implies base@[c.0][c.1]
                    == Terrain::Biome(BiomeKind::Marsh) by {
                    assert(row_major_lt(c.0, c.1, i as int, n as int));
                }
            }
            assert(no_seed_before(old(base)@, humidity@, thr, nn, i + 1, 0) ==> base@ == old(
                base,
            )@) by {
                if no_seed_before(old(base)@, humidity@, thr, nn, i + 1, 0) {
                    assert forall|d: (int, int)|
                        in_bounds(nn, d) && row_major_lt(d.0, d.1, i as int, n as int)
                        implies !marsh_seed(old(base)@, humidity@, thr, nn, d) by {
                        assert(row_major_lt(d.0, d.1, i + 1, 0));
                    }
                    assert(no_seed_before(old(base)@, humidity@, thr, nn, i as int, n as int));
                }
            }
        }
        i += 1;
    }
}

/// Runtime form of [`marshable`].
fn marshable_exec(t: Terrain) -> (r: bool)
    ensures
        r == marshable(t),
{
    match t {
        Terrain::Biome(BiomeKind::Water) => true,
        Terrain::Biome(BiomeKind::DeepWater) => true,
        Terrain::Biome(BiomeKind::Sand) => true,
        Terrain::Unclassified(v) => v <= MARSH_VALUE_LIMIT,
        _ => false,
    }
}

/// Step 1: altitude below the threshold becomes deep water.
pub fn apply_deep_water(base: &mut TerrainGrid, altitude: &ScalarGrid, threshold: u32)
    requires
        old(base).wf(old(base)@.len() as int),
        altitude.wf(old(base)@.len() as int),
    ensures
        final(base).wf(old(base)@.len() as int),
        forall|r: int, c: int|
            0 <= r < old(base)@.len() && 0 <= c < old(base)@.len() ==> final(base)@[r][c]
                == deep_water_cell(#[trigger] old(base)@[r][c], altitude@[r][c], threshold),
{
    let n = base.side();
    let mut i: usize = 0;
    while i < n
        invariant
            i <= n,
            n == old(base)@.len(),
            base.wf(n as int),
            altitude.wf(n as int),
            forall|r: int, c: int|
                0 <= r < n && 0 <= c < n ==> #[trigger] base@[r][c] == (if r < i {
                    deep_water_cell(old(base)@[r][c], altitude@[r][c], threshold)
                } else {
                    old(base)@[r][c]
                }),
        decreases n - i,
    {
        let mut j: usize = 0;
        while j < n
            invariant
                i < n,
                j <= n,
                n == old(base)@.len(),
                base.wf(n as int),
                altitude.wf(n as int),
                forall|r: int, c: int|
                    0 <= r < n && 0 <= c < n ==> #[trigger] base@[r][c] == (if row_major_lt(
                        r,
                        c,
                        i as int,
                        j as int,
                    ) {
                        deep_water_cell(old(base)@[r][c], altitude@[r][c], threshold)
                    } else {
                        old(base)@[r][c]
                    }),
            decreases n - j,
        {
            if altitude.at(i, j) < threshold {
                base.set(i, j, Terrain::Biome(BiomeKind::DeepWater));
            }
            j += 1;
        }
        i += 1;
    }
}

/// Step 2: cells that are already deep water and whose altitude is below the
/// (lower) shallow threshold become water.
pub fn apply_water(base: &mut TerrainGrid, altitude: &ScalarGrid, threshold: u32)
    requires
        old(base).wf(old(base)@.len() as int),
        altitude.wf(old(base)@.len() as int),
    ensures
        final(base).wf(old(base)@.len() as int),
        forall|r: int, c: int|
            0 <= r < old(base)@.len() && 0 <= c < old(base)@.len() ==> final(base)@[r][c]
                == water_cell(#[trigger] old(base)@[r][c], altitude@[r][c], threshold),
{
    let n = base.side();
    let mut i: usize = 0;
    while i < n
        invariant
            i <= n,
            n == old(base)@.len(),
            base.wf(n as int),
            altitude.wf(n as int),
            forall|r: int, c: int|
                0 <= r < n && 0 <= c < n ==> #[trigger] base@[r][c] == (if r < i {
                    water_cell(old(base)@[r][c], altitude@[r][c], threshold)
                } else {
                    old(base)@[r][c]
                }),
        decreases n - i,
    {
        let mut j: usize = 0;
        while j < n
            invariant
                i < n,
                j <= n,
                n == old(base)@.len(),
                base.wf(n as int),
                altitude.wf(n as int),
                forall|r: int, c: int|
                    0 <= r < n && 0 <= c < n ==> #[trigger] base@[r][c] == (if row_major_lt(
                        r,
                        c,
                        i as int,
                        j as int,
                    ) {
                        water_cell(old(base)@[r][c], altitude@[r][c], threshold)
                    } else {
                        old(base)@[r][c]
                    }),
            decreases n - j,
        {
            if base.at(i, j) == Terrain::Biome(BiomeKind::DeepWater) && altitude.at(i, j)
                < threshold {
                base.set(i, j, Terrain::Biome(BiomeKind::Water));
            }
            j += 1;
        }
        i += 1;
    }
}

/// Step 5: high altitude becomes mountain, the highest mountain snow.
pub fn apply_mountain_biome(
    base: &mut TerrainGrid,
    altitude: &ScalarGrid,
    mountain_threshold: u32,
    snow_threshold: u32,
)
    requires
        old(base).wf(old(base)@.len() as int),
        altitude.wf(old(base)@.len() as int),
    ensures
        final(base).wf(old(base)@.len() as int),
        forall|r: int, c: int|
            0 <= r < old(base)@.len() && 0 <= c < old(base)@.len() ==> final(base)@[r][c]
                == mountain_cell(
                #[trigger] old(base)@[r][c],
                altitude@[r][c],
                mountain_threshold,
                snow_threshold,
            ),
{
    let n = base.side();
    let mut i: usize = 0;
    while i < n
        invariant
            i <= n,
            n == old(base)@.len(),
            base.wf(n as int),
            altitude.wf(n as int),
            forall|r: int, c: int|
                0 <= r < n && 0 <= c < n ==> #[trigger] base@[r][c] == (if r < i {
                    mountain_cell(
                        old(base)@[r][c],
                        altitude@[r][c],
                        mountain_threshold,
                        snow_threshold,
                    )
                } else {
                    old(base)@[r][c]
                }),
        decreases n - i,
    {
        let mut j: usize = 0;
        while j < n
            invariant
                i < n,
                j <= n,
                n == old(base)@.len(),
                base.wf(n as int),
                altitude.wf(n as int),
                forall|r: int, c: int|
                    0 <= r < n && 0 <= c < n ==> #[trigger] base@[r][c] == (if row_major_lt(
                        r,
                        c,
                        i as int,
                        j as int,
                    ) {
                        mountain_cell(
                            old(base)@[r][c],
                            altitude@[r][c],
                            mountain_threshold,
                            snow_threshold,
                        )
                    } else {
                        old(base)@[r][c]
                    }),
            decreases n - j,
        {
            let alt = altitude.at(i, j);
            if alt > mountain_threshold {
                if alt > snow_threshold {
                    base.set(i, j, Terrain::Biome(BiomeKind::MountainSnow));
                } else {
                    base.set(i, j, Terrain::Biome(BiomeKind::Mountain));
                }
            }
            j += 1;
        }
        i += 1;
    }
}

/// Chebyshev distance between the cells is at most `r`.
pub open spec fn cheb_le(a: (int, int), b: (int, int), r: int) -> bool {
    a.0 - r <= b.0 <= a.0 + r && a.1 - r <= b.1 <= a.1 + r
}

/// A path that starts on a shallow-water cell and then moves through
/// 4-connected deep-water cells.
pub open spec fn water_path(g: Seq<Seq<Terrain>>, n: int, p: Seq<(int, int)>) -> bool {
    &&& p.len() >= 1
    &&& in_bounds(n, p[0])
    &&& g[p[0].0][p[0].1] == Terrain::Biome(BiomeKind::Water)
    &&& forall|k: int|
        1 <= k < p.len() ==> in_bounds(n, #[trigger] p[k]) && g[p[k].0][p[k].1] == Terrain::Biome(
            BiomeKind::DeepWater,
        ) && adj4(p[k - 1], p[k])
}

/// The water connectivity core: cells reachable from tagged shallow-water
/// seeds through deep water.
pub open spec fn water_zone_core(g: Seq<Seq<Terrain>>, n: int, c: (int, int)) -> bool {
    exists|p: Seq<(int, int)>| water_path(g, n, p) && p.last() == c
}

/// A sand cell sitting right next to the water core.
pub open spec fn sand_on_shore(g: Seq<Seq<Terrain>>, n: int, c: (int, int)) -> bool {
    g[c.0][c.1] == Terrain::Biome(BiomeKind::Sand) && exists|e: (int, int)|
        #[trigger] adj4(c, e) && in_bounds(n, e) && water_zone_core(g, n, e)
}

/// Step 4 mask: the dilated water-connectivity zone. Its exact contents sit
/// between two bounds: everything within Chebyshev distance 2 of the core
/// (or of shore sand) is marked, and nothing is marked that is not within
/// distance 2 of the core or of some sand cell. (Sand marking itself chains
/// in scan order, so the mask between the bounds depends on that order.)
pub fn mark_water_zones(base: &TerrainGrid) -> (zones: Mask)
    requires
        base.wf(base@.len() as int),
    ensures
        zones.wf(base@.len() as int),
        forall|c: (int, int)|
            in_bounds(base@.len() as int, c) && (exists|d: (int, int)|
                in_bounds(base@.len() as int, d) && #[trigger] cheb_le(c, d, 2) && (
                water_zone_core(base@, base@.len() as int, d) || sand_on_shore(
                    base@,
                    base@.len() as int,
                    d,
                ))) ==> mask_at(zones@, c),
        forall|c: (int, int)|
            in_bounds(base@.len() as int, c) && mask_at(zones@, c) ==> exists|d: (int, int)|
                in_bounds(base@.len() as int, d) && #[trigger] cheb_le(c, d, 2) && (
                water_zone_core(base@, base@.len() as int, d) || base@[d.0][d.1] == Terrain::Biome(
                    BiomeKind::Sand,
                )),
{
    let n = base.side();
    let ghost nn = n as int;
    // seed mask and worklist: the shallow-water cells
    let mut zones = Mask::falses(n);
    let mut seeds: Vec<(usize, usize)> = Vec::new();
    // the deep-water cells the fill may spread through
    let mut allowed = Mask::falses(n);
    let mut i: usize = 0;
    while i < n
        invariant
            i <= n,
            n == base@.len(),
            base.wf(nn),
            zones.wf(nn),
            allowed.wf(nn),
            forall|r: int, c: int|
                0 <= r < n && 0 <= c < n ==> (#[trigger] zones@[r][c] <==> r < i && base@[r][c]
                    == Terrain::Biome(BiomeKind::Water)),
            forall|r: int, c: int|
                0 <= r < n && 0 <= c < n ==> (#[trigger] allowed@[r][c] <==> r < i && base@[r][c]
                    == Terrain::Biome(BiomeKind::DeepWater)),
            forall|k: int|
                0 <= k < seeds@.len() ==> in_bounds(nn, cell_int(#[trigger] seeds@[k])) && mask_at(
                    zones@,
                    cell_int(seeds@[k]),
                ),
            forall|c: (int, int)| in_bounds(nn, c) && mask_at(zones@, c) ==> list_has(seeds@, c),
        decreases n - i,
    {
        let mut j: usize = 0;
        while j < n
            invariant
                i < n,
                j <= n,
                n == base@.len(),
                base.wf(nn),
                zones.wf(nn),
                allowed.wf(nn),
                forall|r: int, c: int|
                    0 <= r < n && 0 <= c < n ==> (#[trigger] zones@[r][c] <==> row_major_lt(
                        r,
                        c,
                        i as int,
                        j as int,
                    ) && base@[r][c] == Terrain::Biome(BiomeKind::Water)),
                forall|r: int, c: int|
                    0 <= r < n && 0 <= c < n ==> (#[trigger] allowed@[r][c] <==> row_major_lt(
                        r,
                        c,
                        i as int,
                        j as int,
                    ) && base@[r][c] == Terrain::Biome(BiomeKind::DeepWater)),
                forall|k: int|
                    0 <= k < seeds@.len() ==> in_bounds(nn, cell_int(#[trigger] seeds@[k]))
                        && mask_at(zones@, cell_int(seeds@[k])),
                forall|c: (int, int)|
                    in_bounds(nn, c) && mask_at(zones@, c) ==> list_has(seeds@, c),
            decreases n - j,
        {
            let ghost seeds_pre = seeds@;
            let t = base.at(i, j);
            if t == Terrain::Biome(BiomeKind::Water) {
                zones.set(i, j, true);
                seeds.push((i, j));
            } else if t == Terrain::Biome(BiomeKind::DeepWater) {
                allowed.set(i, j, true);
            }
            proof {
                assert forall|c: (int, int)| in_bounds(nn, c) && mask_at(zones@, c) implies
                    list_has(seeds@, c) by {
                    if c == (i as int, j as int) && base@[c.0][c.1] == Terrain::Biome(
                        BiomeKind::Water,
                    ) {
                        assert(cell_int(seeds@[seeds@.len() - 1]) == c);
                    } else {
                        let k = choose|k: int|
                            0 <= k < seeds_pre.len() && cell_int(#[trigger] seeds_pre[k]) == c;
                        assert(cell_int(seeds@[k]) == c);
                    }
                }
            }
            j += 1;
        }
        i += 1;
    }
    let ghost wm = zones@;
    let ghost seedsg = seeds_of(seeds@);
    let ghost seedlist = seeds@;
    proof {
        assert forall|d: (int, int)| in_bounds(nn, d) && mask_at(wm, d) implies seedsg.contains(
            d,
        ) by {
            let k = choose|k: int| 0 <= k < seedlist.len() && cell_int(#[trigger] seedlist[k]) == d;
            assert(seedsg[k] == d);
        }
        assert forall|k: int| 0 <= k < seedsg.len() implies in_bounds(nn, #[trigger] seedsg[k])
            && mask_at(wm, seedsg[k]) by {
            assert(seedsg[k] == cell_int(seedlist[k]));
        }
    }
    let news = flood(&mut zones, &allowed, seeds);
    let ghost zflood = zones@;
    proof {
        assert forall|c: (int, int)| in_bounds(nn, c) implies (mask_at(zflood, c)
            <==> water_zone_core(base@, nn, c)) by {
            lemma_water_core_equiv(base@, nn, seedsg, wm, allowed@, c);
        }
    }
    mark_sand_near_ocean(&mut zones, base);
    let ghost zsand = zones@;
    let zones2 = dilate(&zones, 2);
    proof {
        assert forall|c: (int, int)|
            in_bounds(nn, c) && (exists|d: (int, int)|
                in_bounds(nn, d) && #[trigger] cheb_le(c, d, 2) && (water_zone_core(base@, nn, d)
                    || sand_on_shore(base@, nn, d))) implies mask_at(zones2@, c) by {
            let d = choose|d: (int, int)|
                in_bounds(nn, d) && #[trigger] cheb_le(c, d, 2) && (water_zone_core(base@, nn, d)
                    || sand_on_shore(base@, nn, d));
            if water_zone_core(base@, nn, d) {
                assert(mask_at(zflood, d));
                assert(mask_at(zsand, d));
            } else {
                let e = choose|e: (int, int)|
                    #[trigger] adj4(d, e) && in_bounds(nn, e) && water_zone_core(base@, nn, e);
                assert(mask_at(zflood, e));
                assert(mask_at(zsand, d));
            }
            assert(zsand[d.0][d.1]);
            assert(near_true(zsand, nn, c.0, c.1, 2));
        }
        assert forall|c: (int, int)| in_bounds(nn, c) && mask_at(zones2@, c) implies exists|
            d: (int, int),
        |
            in_bounds(nn, d) && #[trigger] cheb_le(c, d, 2) && (water_zone_core(base@, nn, d)
                || base@[d.0][d.1] == Terrain::Biome(BiomeKind::Sand)) by {
            assert(near_true(zsand, nn, c.0, c.1, 2));
            let (wi, wj) = choose|wi: int, wj: int|
                0 <= wi < nn && 0 <= wj < nn && c.0 - 2 <= wi <= c.0 + 2 && c.1 - 2 <= wj <= c.1
                    + 2 && #[trigger] zsand[wi][wj];
            let d = (wi, wj);
            assert(mask_at(zsand, d));
            if mask_at(zflood, d) {
                assert(water_zone_core(base@, nn, d));
            } else {
                assert(base@[d.0][d.1] == Terrain::Biome(BiomeKind::Sand));
            }
            assert(cheb_le(c, d, 2));
        }
    }
    zones2
}

/// Links the shallow/deep water fill to the water-core path predicate: the
/// flooded mask holds exactly the core cells.
proof fn lemma_water_core_equiv(
    g: Seq<Seq<Terrain>>,
    n: int,
    seeds: Seq<(int, int)>,
    wm: Seq<Seq<bool>>,
    dm: Seq<Seq<bool>>,
    c: (int, int),
)
    requires
        in_bounds(n, c),
        forall|r: int, cc: int|
            0 <= r < n && 0 <= cc < n ==> (#[trigger] wm[r][cc] <==> g[r][cc] == Terrain::Biome(
                BiomeKind::Water,
            )),
        forall|r: int, cc: int|
            0 <= r < n && 0 <= cc < n ==> (#[trigger] dm[r][cc] <==> g[r][cc] == Terrain::Biome(
                BiomeKind::DeepWater,
            )),
        forall|k: int| 0 <= k < seeds.len() ==> in_bounds(n, #[trigger] seeds[k]) && mask_at(
            wm,
            seeds[k],
        ),
        forall|d: (int, int)| in_bounds(n, d) && mask_at(wm, d) ==> seeds.contains(d),
    ensures
        mask_at(wm, c) || fill_reaches(seeds, dm, wm, n, c) <==> water_zone_core(g, n, c),
{
    if mask_at(wm, c) {
        let p: Seq<(int, int)> = seq![c];
        assert(water_path(g, n, p) && p.last() == c);
        assert(water_zone_core(g, n, c));
    }
    if fill_reaches(seeds, dm, wm, n, c) {
        let p = choose|p: Seq<(int, int)>| fill_path(seeds, dm, wm, n, p) && p.last() == c;
        assert(in_bounds(n, p[0]) && seeds.contains(p[0]));
        let k = choose|k: int| 0 <= k < seeds.len() && seeds[k] == p[0];
        assert(mask_at(wm, p[0]));
        assert(g[p[0].0][p[0].1] == Terrain::Biome(BiomeKind::Water));
        assert forall|kk: int| 1 <= kk < p.len() implies in_bounds(n, #[trigger] p[kk])
            && g[p[kk].0][p[kk].1] == Terrain::Biome(BiomeKind::DeepWater) && adj4(
            p[kk - 1],
            p[kk],
        ) by {
            assert(mask_at(dm, p[kk]));
        }
        assert(water_path(g, n, p) && p.last() == c);
        assert(exists|q: Seq<(int, int)>| water_path(g, n, q) && q.last() == c);
        assert(water_zone_core(g, n, c));
    }
    if water_zone_core(g, n, c) {
        let p = choose|p: Seq<(int, int)>| water_path(g, n, p) && p.last() == c;
        if p.len() == 1 {
            assert(mask_at(wm, c));
        } else {
            assert(seeds.contains(p[0]));
            assert forall|k: int| 1 <= k < p.len() implies in_bounds(n, #[trigger] p[k]) && mask_at(
                dm,
                p[k],
            ) && !mask_at(wm, p[k]) && adj4(p[k - 1], p[k]) by {}
            assert(fill_path(seeds, dm, wm, n, p));
            assert(fill_reaches(seeds, dm, wm, n, c));
        }
    }
}

/// Marks every sand cell with a 4-neighbour already inside the water zone.
/// Marks chain along the scan order: a sand cell marked earlier in the scan
/// counts as "inside" for the cells after it. The contract bounds the
/// result: marks only grow, every new mark is a sand cell touching a marked
/// neighbour, and every sand cell touching an initially marked neighbour is
/// marked.
pub fn mark_sand_near_ocean(zones: &mut Mask, base: &TerrainGrid)
    requires
        old(zones).wf(old(zones)@.len() as int),
        base.wf(old(zones)@.len() as int),
        base@.len() == old(zones)@.len(),
    ensures
        final(zones).wf(old(zones)@.len() as int),
        forall|c: (int, int)|
            in_bounds(old(zones)@.len() as int, c) && mask_at(old(zones)@, c) ==> mask_at(
                final(zones)@,
                c,
            ),
        forall|c: (int, int)|
            in_bounds(old(zones)@.len() as int, c) && mask_at(final(zones)@, c) && !mask_at(
                old(zones)@,
                c,
            ) ==> base@[c.0][c.1] == Terrain::Biome(BiomeKind::Sand) && exists|e: (int, int)|
                #[trigger] adj4(c, e) && in_bounds(old(zones)@.len() as int, e) && mask_at(
                    final(zones)@,
                    e,
                ),
        forall|c: (int, int)|
            in_bounds(old(zones)@.len() as int, c) && base@[c.0][c.1] == Terrain::Biome(
                BiomeKind::Sand,
            ) && (exists|e: (int, int)|
                #[trigger] adj4(c, e) && in_bounds(old(zones)@.len() as int, e) && mask_at(
                    old(zones)@,
                    e,
                )) ==> mask_at(final(zones)@, c),
{
    let n = zones.side();
    let ghost nn = n as int;
    let mut i: usize = 0;
    while i < n
        invariant
            i <= n,
            n == old(zones)@.len(),
            n == base@.len(),
            base.wf(nn),
            zones.wf(nn),
            forall|c: (int, int)|
                in_bounds(nn, c) && mask_at(old(zones)@, c) ==> mask_at(zones@, c),
            forall|c: (int, int)|
                in_bounds(nn, c) && mask_at(zones@, c) && !mask_at(old(zones)@, c)
                    ==> base@[c.0][c.1] == Terrain::Biome(BiomeKind::Sand) && exists|e: (int, int)|
                    #[trigger] adj4(c, e) && in_bounds(nn, e) && mask_at(zones@, e),
            forall|c: (int, int)|
                in_bounds(nn, c) && c.0 < i && base@[c.0][c.1] == Terrain::Biome(BiomeKind::Sand)
                    && (exists|e: (int, int)|
                    #[trigger] adj4(c, e) && in_bounds(nn, e) && mask_at(old(zones)@, e))
                    ==> mask_at(zones@, c),
        decreases n - i,
    {
        let mut j: usize = 0;
        while j < n
            invariant
                i < n,
                j <= n,
                n == old(zones)@.len(),
                n == base@.len(),
                base.wf(nn),
                zones.wf(nn),
                forall|c: (int, int)|
                    in_bounds(nn, c) && mask_at(old(zones)@, c) ==> mask_at(zones@, c),
                forall|c: (int, int)|
                    in_bounds(nn, c) && mask_at(zones@, c) && !mask_at(old(zones)@, c)
                        ==> base@[c.0][c.1] == Terrain::Biome(BiomeKind::Sand) && exists|
                        e: (int, int),
                    |
                        #[trigger] adj4(c, e) && in_bounds(nn, e) && mask_at(zones@, e),
                forall|c: (int, int)|
                    in_bounds(nn, c) && row_major_lt(c.0, c.1, i as int, j as int)
                        && base@[c.0][c.1] == Terrain::Biome(BiomeKind::Sand) && (exists|
                        e: (int, int),
                    |
                        #[trigger] adj4(c, e) && in_bounds(nn, e) && mask_at(old(zones)@, e))
                        ==> mask_at(zones@, c),
            decreases n - j,
        {
            let ghost zpre = zones@;
            if base.at(i, j) == Terrain::Biome(BiomeKind::Sand) {
                let mut hit = false;
                if i > 0 && zones.at(i - 1, j) {
                    hit = true;
                    proof {
                        assert(adj4((i as int, j as int), (i - 1, j as int)));
                    }
                }
                if j > 0 && zones.at(i, j - 1) {
                    hit = true;
                    proof {
                        assert(adj4((i as int, j as int), (i as int, j - 1)));
                    }
                }
                if i < n - 1 && zones.at(i + 1, j) {
                    hit = true;
                    proof {
                        assert(adj4((i as int, j as int), (i + 1, j as int)));
                    }
                }
                if j < n - 1 && zones.at(i, j + 1) {
                    hit = true;
                    proof {
                        assert(adj4((i as int, j as int), (i as int, j + 1)));
                    }
                }
                if hit {
                    zones.set(i, j, true);
                }
            }
            proof {
                assert forall|c: (int, int)|
                    in_bounds(nn, c) && mask_at(zones@, c) && !mask_at(old(zones)@, c)
                        implies base@[c.0][c.1] == Terrain::Biome(BiomeKind::Sand) && exists|
                    e: (int, int),
                |
                    #[trigger] adj4(c, e) && in_bounds(nn, e) && mask_at(zones@, e) by {
                    if mask_at(zpre, c) {
                        let e = choose|e: (int, int)|
                            #[trigger] adj4(c, e) && in_bounds(nn, e) && mask_at(zpre, e);
                        assert(mask_at(zones@, e));
                    }
                }
                assert forall|c: (int, int)|
                    in_bounds(nn, c) && row_major_lt(c.0, c.1, i as int, j + 1) && base@[c.0][c.1]
                        == Terrain::Biome(BiomeKind::Sand) && (exists|e: (int, int)|
                        #[trigger] adj4(c, e) && in_bounds(nn, e) && mask_at(old(zones)@, e))
                        implies mask_at(zones@, c) by {
                    if c == (i as int, j as int) {
                        let e = choose|e: (int, int)|
                            #[trigger] adj4(c, e) && in_bounds(nn, e) && mask_at(old(zones)@, e);
                        assert(mask_at(zpre, e));
                    } else {
                        assert(row_major_lt(c.0, c.1, i as int, j as int));
                        assert(mask_at(zpre, c));
                    }
                }
            }
            j += 1;
        }
        i += 1;
    }
}

/// Step 4 rewrite: sand cells outside the connectivity mask are treated as
/// actually submerged and turned back to deep water.
pub fn apply_sand_to_shallow_water_transformation(base: &mut TerrainGrid, water_zones: &Mask)
    requires
        old(base).wf(old(base)@.len() as int),
        water_zones.wf(old(base)@.len() as int),
        water_zones@.len() == old(base)@.len(),
    ensures
        final(base).wf(old(base)@.len() as int),
        forall|r: int, c: int|
            0 <= r < old(base)@.len() && 0 <= c < old(base)@.len() ==> final(base)@[r][c] == (if !(
            water_zones@[r][c]) && #[trigger] old(base)@[r][c] == Terrain::Biome(BiomeKind::Sand) {
                Terrain::Biome(BiomeKind::DeepWater)
            } else {
                old(base)@[r][c]
            }),
{
    let n = base.side();
    let mut i: usize = 0;
    while i < n
        invariant
            i <= n,
            n == old(base)@.len(),
            base.wf(n as int),
            water_zones.wf(n as int),
            water_zones@.len() == n,
            forall|r: int, c: int|
                0 <= r < n && 0 <= c < n ==> #[trigger] base@[r][c] == (if r < i && !(
                water_zones@[r][c]) && old(base)@[r][c] == Terrain::Biome(BiomeKind::Sand) {
                    Terrain::Biome(BiomeKind::DeepWater)
                } else {
                    old(base)@[r][c]
                }),
        decreases n - i,
    {
        let mut j: usize = 0;
        while j < n
            invariant
                i < n,
                j <= n,
                n == old(base)@.len(),
                base.wf(n as int),
                water_zones.wf(n as int),
                water_zones@.len() == n,
                forall|r: int, c: int|
                    0 <= r < n && 0 <= c < n ==> #[trigger] base@[r][c] == (if row_major_lt(
                        r,
                        c,
                        i as int,
                        j as int,
                    ) && !(water_zones@[r][c]) && old(base)@[r][c] == Terrain::Biome(
                        BiomeKind::Sand,
                    ) {
                        Terrain::Biome(BiomeKind::DeepWater)
                    } else {
                        old(base)@[r][c]
                    }),
            decreases n - j,
        {
            if !water_zones.at(i, j) && base.at(i, j) == Terrain::Biome(BiomeKind::Sand) {
                base.set(i, j, Terrain::Biome(BiomeKind::DeepWater));
            }
            j += 1;
        }
        i += 1;
    }
}

/// The scan half of step 7: hot cells not protected by water or mountain
/// become hot desert.
fn desert_scan(base: &mut TerrainGrid, temperature: &ScalarGrid, threshold: u32)
    requires
        old(base).wf(old(base)@.len() as int),
        temperature.wf(old(base)@.len() as int),
    ensures
        final(base).wf(old(base)@.len() as int),
        forall|r: int, c: int|
            0 <= r < old(base)@.len() && 0 <= c < old(base)@.len() ==> final(base)@[r][c]
                == desert_cell(#[trigger] old(base)@[r][c], temperature@[r][c], threshold),
{
    let n = base.side();
    let mut i: usize = 0;
    while i < n
        invariant
            i <= n,
            n == old(base)@.len(),
            base.wf(n as int),
            temperature.wf(n as int),
            forall|r: int, c: int|
                0 <= r < n && 0 <= c < n ==> #[trigger] base@[r][c] == (if r < i {
                    desert_cell(old(base)@[r][c], temperature@[r][c], threshold)
                } else {
                    old(base)@[r][c]
                }),
        decreases n - i,
    {
        let mut j: usize = 0;
        while j < n
            invariant
                i < n,
                j <= n,
                n == old(base)@.len(),
                base.wf(n as int),
                temperature.wf(n as int),
                forall|r: int, c: int|
                    0 <= r < n && 0 <= c < n ==> #[trigger] base@[r][c] == (if row_major_lt(
                        r,
                        c,
                        i as int,
                        j as int,
                    ) {
                        desert_cell(old(base)@[r][c], temperature@[r][c], threshold)
                    } else {
                        old(base)@[r][c]
                    }),
            decreases n - j,
        {
            let t = base.at(i, j);
            if temperature.at(i, j) > threshold && t != Terrain::Biome(BiomeKind::DeepWater) && t
                != Terrain::Biome(BiomeKind::Water) && t != Terrain::Biome(BiomeKind::MountainSnow)
                && t != Terrain::Biome(BiomeKind::Mountain) {
                base.set(i, j, Terrain::Biome(BiomeKind::DesertHot));
            }
            j += 1;
        }
        i += 1;
    }
}

/// The scan half of step 8: cold cells not protected by water, mountain or
/// marsh become glacial.
fn glacial_scan(base: &mut TerrainGrid, temperature: &ScalarGrid, threshold: u32)
    requires
        old(base).wf(old(base)@.len() as int),
        temperature.wf(old(base)@.len() as int),
    ensures
        final(base).wf(old(base)@.len() as int),
        forall|r: int, c: int|
            0 <= r < old(base)@.len() && 0 <= c < old(base)@.len() ==> final(base)@[r][c]
                == glacial_cell(#[trigger] old(base)@[r][c], temperature@[r][c], threshold),
{
    let n = base.side();
    let mut i: usize = 0;
    while i < n
        invariant
            i <= n,
            n == old(base)@.len(),
            base.wf(n as int),
            temperature.wf(n as int),
            forall|r: int, c: int|
                0 <= r < n && 0 <= c < n ==> #[trigger] base@[r][c] == (if r < i {
                    glacial_cell(old(base)@[r][c], temperature@[r][c], threshold)
                } else {
                    old(base)@[r][c]
                }),
        decreases n - i,
    {
        let mut j: usize = 0;
        while j < n
            invariant
                i < n,
                j <= n,
                n == old(base)@.len(),
                base.wf(n as int),
                temperature.wf(n as int),
                forall|r: int, c: int|
                    0 <= r < n && 0 <= c < n ==> #[trigger] base@[r][c] == (if row_major_lt(
                        r,
                        c,
                        i as int,
                        j as int,
                    ) {
                        glacial_cell(old(base)@[r][c], temperature@[r][c], threshold)
                    } else {
                        old(base)@[r][c]
                    }),
            decreases n - j,
        {
            let t = base.at(i, j);
            if temperature.at(i, j) < threshold && t != Terrain::Biome(BiomeKind::DeepWater) && t
                != Terrain::Biome(BiomeKind::Water) && t != Terrain::Biome(BiomeKind::MountainSnow)
                && t != Terrain::Biome(BiomeKind::Mountain) && t != Terrain::Biome(
                BiomeKind::Marsh,
            ) {
                base.set(i, j, Terrain::Biome(BiomeKind::Glacial));
            }
            j += 1;
        }
        i += 1;
    }
}

/// The grid after the hot-desert scan, cell by cell.
pub open spec fn desert_grid(g: Seq<Seq<Terrain>>, temp: Seq<Seq<u32>>, thr: u32) -> Seq<
    Seq<Terrain>,
> {
    Seq::new(g.len(), |i: int| Seq::new(g[i].len(), |j: int| desert_cell(g[i][j], temp[i][j], thr)))
}

/// The grid after the glacial scan, cell by cell.
pub open spec fn glacial_grid(g: Seq<Seq<Terrain>>, temp: Seq<Seq<u32>>, thr: u32) -> Seq<
    Seq<Terrain>,
> {
    Seq::new(
        g.len(),
        |i: int| Seq::new(g[i].len(), |j: int| glacial_cell(g[i][j], temp[i][j], thr)),
    )
}

/// Step 7: the hot-desert scan followed by pruning of speckles. Desert
/// components smaller than [`MIN_REGION_SIZE`] are rewritten back to plain;
/// larger ones and all other cells keep the scan's result.
pub fn apply_desert_biome(base: &mut TerrainGrid, temperature: &ScalarGrid, threshold: u32)
    requires
        old(base).wf(old(base)@.len() as int),
        temperature.wf(old(base)@.len() as int),
    ensures
        final(base).wf(old(base)@.len() as int),
        ({
            let n = old(base)@.len() as int;
            let dg = desert_grid(old(base)@, temperature@, threshold);
            let tm = target_mask(dg, Terrain::Biome(BiomeKind::DesertHot));
            &&& forall|c: (int, int)|
                in_bounds(n, c) && dg[c.0][c.1] != Terrain::Biome(BiomeKind::DesertHot) ==> final(base)@[c.0][c.1] == dg[c.0][c.1]
            &&& forall|c: (int, int)|
                in_bounds(n, c) && #[trigger] dg[c.0][c.1] == Terrain::Biome(BiomeKind::DesertHot)
                    ==> component(tm, n, c).finite() && final(base)@[c.0][c.1] == (if component(
                    tm,
                    n,
                    c,
                ).len() < MIN_REGION_SIZE {
                    Terrain::Unclassified(PLAIN_RESET_VALUE)
                } else {
                    Terrain::Biome(BiomeKind::DesertHot)
                })
        }),
{
    let ghost dg = desert_grid(old(base)@, temperature@, threshold);
    desert_scan(base, temperature, threshold);
    proof {
        assert(base@ =~~= dg);
    }
    prune_small_components(
        base,
        Terrain::Biome(BiomeKind::DesertHot),
        Terrain::Unclassified(PLAIN_RESET_VALUE),
        MIN_REGION_SIZE,
    );
}

/// Step 8: the glacial scan followed by pruning of speckles, as the desert
/// step.
pub fn apply_glacial_biome(base: &mut TerrainGrid, temperature: &ScalarGrid, threshold: u32)
    requires
        old(base).wf(old(base)@.len() as int),
        temperature.wf(old(base)@.len() as int),
    ensures
        final(base).wf(old(base)@.len() as int),
        ({
            let n = old(base)@.len() as int;
            let dg = glacial_grid(old(base)@, temperature@, threshold);
            let tm = target_mask(dg, Terrain::Biome(BiomeKind::Glacial));
            &&& forall|c: (int, int)|
                in_bounds(n, c) && dg[c.0][c.1] != Terrain::Biome(BiomeKind::Glacial) ==> final(base)@[c.0][c.1] == dg[c.0][c.1]
            &&& forall|c: (int, int)|
                in_bounds(n, c) && #[trigger] dg[c.0][c.1] == Terrain::Biome(BiomeKind::Glacial)
                    ==> component(tm, n, c).finite() && final(base)@[c.0][c.1] == (if component(
                    tm,
                    n,
                    c,
                ).len() < MIN_REGION_SIZE {
                    Terrain::Unclassified(PLAIN_RESET_VALUE)
                } else {
                    Terrain::Biome(BiomeKind::Glacial)
                })
        }),
{
    let ghost dg = glacial_grid(old(base)@, temperature@, threshold);
    glacial_scan(base, temperature, threshold);
    proof {
        assert(base@ =~~= dg);
    }
    prune_small_components(
        base,
        Terrain::Biome(BiomeKind::Glacial),
        Terrain::Unclassified(PLAIN_RESET_VALUE),
        MIN_REGION_SIZE,
    );
}

/// A cell that carries a discrete code rather than a raw elevation.
pub open spec fn is_coded(t: Terrain) -> bool {
    match t {
        Terrain::Unclassified(_) => false,
        _ => true,
    }
}

} // verus!
