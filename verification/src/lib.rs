//! Procedural terrain classification and settlement synthesis.
//!
//! Three scalar fields over an NxN grid (altitude, temperature, humidity)
//! are classified into a single coded grid of biomes, settlements are
//! placed on the resulting plains, and the settlements are connected by
//! curved roads built from a degree-constrained minimum spanning tree.

use vstd::prelude::*;

pub mod cell;
pub mod classify;
pub mod delaunay;
pub mod grid;
pub mod maths;
pub mod multimap;
pub mod roads;
pub mod settlement;
pub mod zone;

pub use grid::BiomeKind;
pub use grid::GridError;
pub use grid::ScalarGrid;
pub use grid::SettlementKind;
pub use grid::Terrain;
pub use grid::TerrainGrid;

use classify::DEEP_THRESHOLD;
use classify::DEEP_WATER_THRESHOLD;
use classify::DESERT_THRESHOLD;
use classify::GLACIAL_THRESHOLD;
use classify::MOUNTAIN_THRESHOLD;
use classify::PLAIN_RESET_VALUE;
use classify::SAND_RADIUS;
use classify::SNOW_THRESHOLD;
use classify::apply_deep_water;
use classify::apply_desert_biome;
use classify::apply_glacial_biome;
use classify::apply_marsh_biome;
use classify::apply_mountain_biome;
use classify::apply_sand_biome;
use classify::apply_sand_to_shallow_water_transformation;
use classify::apply_water;
use classify::is_coded;
use classify::mark_water_zones;
use roads::CITY_DISTANCE_MAX_SQ;
use roads::CITY_MAX_ROUTES;
use roads::Edge;
use roads::ROAD_COORD_LIMIT;
use roads::collect_anchors;
use roads::degree_in;
use roads::edge_ok;
use roads::kruskal;
use settlement::find_plains;
use settlement::generer_villages_et_villes;
use zone::in_bounds;

verus! {

/// Squared Euclidean distance between two grid coordinates.
pub open spec fn spec_distance_squared(a: (int, int), b: (int, int)) -> int {
    (a.0 - b.0) * (a.0 - b.0) + (a.1 - b.1) * (a.1 - b.1)
}

/// Squared Euclidean distance between two settlement anchors; the cost of a
/// candidate road edge.
pub fn distance_carree(a: (usize, usize), b: (usize, usize)) -> (r: usize)
    requires
        spec_distance_squared((a.0 as int, a.1 as int), (b.0 as int, b.1 as int)) <= usize::MAX,
    ensures
        r == spec_distance_squared((a.0 as int, a.1 as int), (b.0 as int, b.1 as int)),
{
    let dx: usize = if a.0 >= b.0 { a.0 - b.0 } else { b.0 - a.0 };
    let dy: usize = if a.1 >= b.1 { a.1 - b.1 } else { b.1 - a.1 };
    proof {
        assert(dx * dx == (a.0 - b.0) * (a.0 - b.0) && dy * dy == (a.1 - b.1) * (a.1 - b.1))
            by (nonlinear_arith)
            requires
                (dx == a.0 - b.0 || dx == b.0 - a.0) && (dy == a.1 - b.1 || dy == b.1 - a.1),
        ;
    }
    dx * dx + dy * dy
}

/// Runs the whole pipeline over the classification grid: the ordered biome
/// rules, settlement placement driven by the injected generator, and the
/// road network. Mismatched input dimensions are rejected before any
/// mutation. On success the accepted road edges and the per-anchor
/// accepted-edge counts are returned, so a caller can observe how much of
/// the settlement graph was connected.
///
/// Classification never perturbs a raw elevation: every cell of the result
/// either keeps its incoming value, carries a discrete code, or holds the
/// plain-reset elevation that pruning writes over small desert and glacial
/// speckles.
pub fn apply_biomes(
    base: &mut TerrainGrid,
    altitude: &ScalarGrid,
    temperature: &ScalarGrid,
    humidity: &ScalarGrid,
    rng: &mut rand::rngs::StdRng,
) -> (r: Result<(Vec<(usize, usize)>, Vec<Edge>, Vec<usize>), GridError>)
    requires
        old(base).wf(old(base)@.len() as int),
        altitude.wf(altitude@.len() as int),
        temperature.wf(temperature@.len() as int),
        humidity.wf(humidity@.len() as int),
        old(base)@.len() <= ROAD_COORD_LIMIT,
        old(base)@.len() * old(base)@.len() < usize::MAX,
    ensures
        final(base).wf(old(base)@.len() as int),
        r is Err <==> !(altitude@.len() == old(base)@.len() && temperature@.len() == old(
            base,
        )@.len() && humidity@.len() == old(base)@.len()),
        r is Err ==> final(base)@ == old(base)@ && r == Result::<
            (Vec<(usize, usize)>, Vec<Edge>, Vec<usize>),
            GridError,
        >::Err(GridError::DimensionMismatch),
        forall|c: (int, int)|
            in_bounds(old(base)@.len() as int, c) ==> final(base)@[c.0][c.1] == old(
                base,
            )@[c.0][c.1] || is_coded(final(base)@[c.0][c.1]) || final(base)@[c.0][c.1]
                == Terrain::Unclassified(PLAIN_RESET_VALUE),
        r is Ok ==> forall|c: (int, int)|
            in_bounds(old(base)@.len() as int, c) && altitude@[c.0][c.1] < DEEP_WATER_THRESHOLD
                ==> is_coded(#[trigger] final(base)@[c.0][c.1]) || final(base)@[c.0][c.1]
                == Terrain::Unclassified(PLAIN_RESET_VALUE),
        match r {
            Ok(t) => {
                &&& t.2@.len() == t.0@.len()
                &&& forall|k: int|
                    0 <= k < t.0@.len() ==> in_bounds(
                        old(base)@.len() as int,
                        zone::cell_int(#[trigger] t.0@[k]),
                    )
                &&& forall|i: int| 0 <= i < t.2@.len() ==> #[trigger] t.2@[i] <= CITY_MAX_ROUTES
                &&& forall|i: int| 0 <= i < t.2@.len() ==> #[trigger] t.2@[i] == degree_in(t.1@, i)
                &&& forall|i: int|
                    0 <= i < t.2@.len() && #[trigger] t.2@[i] >= 1
                        ==> final(base)@[t.0@[i].0 as int][t.0@[i].1 as int] == Terrain::Route
                &&& t.0@.len() > 0 ==> t.1@.len() <= t.0@.len() - 1
                &&& t.0@.len() == 0 ==> t.1@.len() == 0
                &&& forall|k: int|
                    0 <= k < t.1@.len() ==> (#[trigger] t.1@[k]).start < t.0@.len()
                        && t.1@[k].end < t.0@.len() && t.1@[k].start != t.1@[k].end
                        && t.1@[k].cost as int == spec_distance_squared(
                        zone::cell_int(t.0@[t.1@[k].start as int]),
                        zone::cell_int(t.0@[t.1@[k].end as int]),
                    ) && t.1@[k].cost <= CITY_DISTANCE_MAX_SQ
            },
            Err(_) => true,
        },
{
    let n = base.side();
    let ghost nn = n as int;
    if altitude.side() != n || temperature.side() != n || humidity.side() != n {
        return Err(GridError::DimensionMismatch);
    }
    let ghost g0 = base@;
    apply_deep_water(base, altitude, DEEP_WATER_THRESHOLD);
    let ghost g1 = base@;
    proof {
        assert forall|c: (int, int)| in_bounds(nn, c) implies #[trigger] g1[c.0][c.1]
            == g0[c.0][c.1] || is_coded(g1[c.0][c.1]) by {}
        assert forall|c: (int, int)|
            in_bounds(nn, c) && altitude@[c.0][c.1] < DEEP_WATER_THRESHOLD implies is_coded(
            #[trigger] g1[c.0][c.1],
        ) by {}
    }
    apply_water(base, altitude, DEEP_THRESHOLD);
    let ghost g2 = base@;
    proof {
        assert forall|c: (int, int)| in_bounds(nn, c) implies #[trigger] g2[c.0][c.1]
            == g0[c.0][c.1] || is_coded(g2[c.0][c.1]) by {
            assert(g2[c.0][c.1] == g1[c.0][c.1] || is_coded(g2[c.0][c.1]));
        }
        assert forall|c: (int, int)|
            in_bounds(nn, c) && altitude@[c.0][c.1] < DEEP_WATER_THRESHOLD implies is_coded(
            #[trigger] g2[c.0][c.1],
        ) by {
            assert(g2[c.0][c.1] == g1[c.0][c.1] || is_coded(g2[c.0][c.1]));
        }
    }
    apply_sand_biome(base, altitude, SAND_RADIUS);
    let ghost g3 = base@;
    proof {
        assert forall|c: (int, int)| in_bounds(nn, c) implies #[trigger] g3[c.0][c.1]
            == g0[c.0][c.1] || is_coded(g3[c.0][c.1]) by {
            assert(g3[c.0][c.1] == g2[c.0][c.1] || is_coded(g3[c.0][c.1]));
        }
        assert forall|c: (int, int)|
            in_bounds(nn, c) && altitude@[c.0][c.1] < DEEP_WATER_THRESHOLD implies is_coded(
            #[trigger] g3[c.0][c.1],
        ) by {
            assert(g3[c.0][c.1] == g2[c.0][c.1] || is_coded(g3[c.0][c.1]));
        }
    }
    let water_zones = mark_water_zones(base);
    apply_sand_to_shallow_water_transformation(base, &water_zones);
    let ghost g4 = base@;
    proof {
        assert forall|c: (int, int)| in_bounds(nn, c) implies #[trigger] g4[c.0][c.1]
            == g0[c.0][c.1] || is_coded(g4[c.0][c.1]) by {
            assert(g4[c.0][c.1] == g3[c.0][c.1] || is_coded(g4[c.0][c.1]));
        }
        assert forall|c: (int, int)|
            in_bounds(nn, c) && altitude@[c.0][c.1] < DEEP_WATER_THRESHOLD implies is_coded(
            #[trigger] g4[c.0][c.1],
        ) || g4[c.0][c.1] == Terrain::Unclassified(PLAIN_RESET_VALUE) by {
            assert(g4[c.0][c.1] == g3[c.0][c.1] || is_coded(g4[c.0][c.1]));
        }
    }
    apply_mountain_biome(base, altitude, MOUNTAIN_THRESHOLD, SNOW_THRESHOLD);
    let ghost g5 = base@;
    proof {
        assert forall|c: (int, int)| in_bounds(nn, c) implies #[trigger] g5[c.0][c.1]
            == g0[c.0][c.1] || is_coded(g5[c.0][c.1]) by {
            assert(g5[c.0][c.1] == g4[c.0][c.1] || is_coded(g5[c.0][c.1]));
        }
        assert forall|c: (int, int)|
            in_bounds(nn, c) && altitude@[c.0][c.1] < DEEP_WATER_THRESHOLD implies is_coded(
            #[trigger] g5[c.0][c.1],
        ) || g5[c.0][c.1] == Terrain::Unclassified(PLAIN_RESET_VALUE) by {
            assert(g5[c.0][c.1] == g4[c.0][c.1] || is_coded(g5[c.0][c.1]));
        }
    }
    apply_marsh_biome(base, humidity, MOUNTAIN_THRESHOLD);
    let ghost g6 = base@;
    proof {
        assert forall|c: (int, int)| in_bounds(nn, c) implies #[trigger] g6[c.0][c.1]
            == g0[c.0][c.1] || is_coded(g6[c.0][c.1]) by {
            assert(g6[c.0][c.1] == g5[c.0][c.1] || is_coded(g6[c.0][c.1]));
        }
        assert forall|c: (int, int)|
            in_bounds(nn, c) && altitude@[c.0][c.1] < DEEP_WATER_THRESHOLD implies is_coded(
            #[trigger] g6[c.0][c.1],
        ) || g6[c.0][c.1] == Terrain::Unclassified(PLAIN_RESET_VALUE) by {
            assert(g6[c.0][c.1] == g5[c.0][c.1] || is_coded(g6[c.0][c.1]));
        }
    }
    apply_desert_biome(base, temperature, DESERT_THRESHOLD);
    let ghost g7 = base@;
    proof {
        let dg = classify::desert_grid(g6, temperature@, DESERT_THRESHOLD);
        assert forall|c: (int, int)| in_bounds(nn, c) implies #[trigger] g7[c.0][c.1]
            == g0[c.0][c.1] || is_coded(g7[c.0][c.1]) || g7[c.0][c.1] == Terrain::Unclassified(
            PLAIN_RESET_VALUE,
        ) by {
            assert(dg[c.0][c.1] == g6[c.0][c.1] || is_coded(dg[c.0][c.1]));
            assert(g7[c.0][c.1] == dg[c.0][c.1] || g7[c.0][c.1] == Terrain::Unclassified(
                PLAIN_RESET_VALUE,
            ) || g7[c.0][c.1] == Terrain::Biome(BiomeKind::DesertHot));
        }
        assert forall|c: (int, int)|
            in_bounds(nn, c) && altitude@[c.0][c.1] < DEEP_WATER_THRESHOLD implies is_coded(
            #[trigger] g7[c.0][c.1],
        ) || g7[c.0][c.1] == Terrain::Unclassified(PLAIN_RESET_VALUE) by {
            let dg = classify::desert_grid(g6, temperature@, DESERT_THRESHOLD);
            assert(dg[c.0][c.1] == g6[c.0][c.1] || is_coded(dg[c.0][c.1]));
            assert(g7[c.0][c.1] == dg[c.0][c.1] || g7[c.0][c.1] == Terrain::Unclassified(
                PLAIN_RESET_VALUE,
            ) || g7[c.0][c.1] == Terrain::Biome(BiomeKind::DesertHot));
        }
    }
    apply_glacial_biome(base, temperature, GLACIAL_THRESHOLD);
    let ghost g8 = base@;
    proof {
        let dg = classify::glacial_grid(g7, temperature@, GLACIAL_THRESHOLD);
        assert forall|c: (int, int)| in_bounds(nn, c) implies #[trigger] g8[c.0][c.1]
            == g0[c.0][c.1] || is_coded(g8[c.0][c.1]) || g8[c.0][c.1] == Terrain::Unclassified(
            PLAIN_RESET_VALUE,
        ) by {
            assert(dg[c.0][c.1] == g7[c.0][c.1] || is_coded(dg[c.0][c.1]));
            assert(g8[c.0][c.1] == dg[c.0][c.1] || g8[c.0][c.1] == Terrain::Unclassified(
                PLAIN_RESET_VALUE,
            ) || g8[c.0][c.1] == Terrain::Biome(BiomeKind::Glacial));
        }
        assert forall|c: (int, int)|
            in_bounds(nn, c) && altitude@[c.0][c.1] < DEEP_WATER_THRESHOLD implies is_coded(
            #[trigger] g8[c.0][c.1],
        ) || g8[c.0][c.1] == Terrain::Unclassified(PLAIN_RESET_VALUE) by {
            let dg = classify::glacial_grid(g7, temperature@, GLACIAL_THRESHOLD);
            assert(dg[c.0][c.1] == g7[c.0][c.1] || is_coded(dg[c.0][c.1]));
            assert(g8[c.0][c.1] == dg[c.0][c.1] || g8[c.0][c.1] == Terrain::Unclassified(
                PLAIN_RESET_VALUE,
            ) || g8[c.0][c.1] == Terrain::Biome(BiomeKind::Glacial));
        }
    }
    let plains = find_plains(base);
    generer_villages_et_villes(base, &plains, rng);
    let ghost g9 = base@;
    proof {
        assert forall|c: (int, int)| in_bounds(nn, c) implies #[trigger] g9[c.0][c.1]
            == g0[c.0][c.1] || is_coded(g9[c.0][c.1]) || g9[c.0][c.1] == Terrain::Unclassified(
            PLAIN_RESET_VALUE,
        ) by {
            assert(g9[c.0][c.1] == g8[c.0][c.1] || is_coded(g9[c.0][c.1]));
        }
        assert forall|c: (int, int)|
            in_bounds(nn, c) && altitude@[c.0][c.1] < DEEP_WATER_THRESHOLD implies is_coded(
            #[trigger] g9[c.0][c.1],
        ) || g9[c.0][c.1] == Terrain::Unclassified(PLAIN_RESET_VALUE) by {
            assert(g9[c.0][c.1] == g8[c.0][c.1] || is_coded(g9[c.0][c.1]));
        }
    }
    let points = collect_anchors(base);
    proof {
        assert forall|k: int| 0 <= k < points@.len() implies in_bounds(
            nn,
            zone::cell_int(#[trigger] points@[k]),
        ) by {
            assert(roads::anchor_at(g9, nn, zone::cell_int(points@[k])));
        }
    }
    let (mst, connections) = kruskal(&points, base);
    proof {
        assert forall|c: (int, int)| in_bounds(nn, c) implies #[trigger] base@[c.0][c.1]
            == g0[c.0][c.1] || is_coded(base@[c.0][c.1]) || base@[c.0][c.1]
            == Terrain::Unclassified(PLAIN_RESET_VALUE) by {
            assert(base@[c.0][c.1] == g9[c.0][c.1] || base@[c.0][c.1] == Terrain::Route);
        }
        assert forall|c: (int, int)|
            in_bounds(nn, c) && altitude@[c.0][c.1] < DEEP_WATER_THRESHOLD implies is_coded(
            #[trigger] base@[c.0][c.1],
        ) || base@[c.0][c.1] == Terrain::Unclassified(PLAIN_RESET_VALUE) by {
            assert(base@[c.0][c.1] == g9[c.0][c.1] || base@[c.0][c.1] == Terrain::Route);
        }
        assert forall|k: int| 0 <= k < mst@.len() implies (#[trigger] mst@[k]).start
            < points@.len() && mst@[k].end < points@.len() && mst@[k].start != mst@[k].end
            && mst@[k].cost as int == spec_distance_squared(
            zone::cell_int(points@[mst@[k].start as int]),
            zone::cell_int(points@[mst@[k].end as int]),
        ) && mst@[k].cost <= CITY_DISTANCE_MAX_SQ by {
            assert(edge_ok(mst@[k], points@, g9));
        }
    }
    Ok((points, mst, connections))
}

} // verus!
