use terramap::classify::apply_deep_water;
use terramap::classify::apply_sand_to_shallow_water_transformation;
use terramap::classify::mark_water_zones;
use terramap::classify::apply_desert_biome;
use terramap::classify::apply_marsh_biome;
use terramap::classify::apply_mountain_biome;
use terramap::classify::apply_sand_biome;
use terramap::classify::apply_water;
use terramap::classify::DEEP_THRESHOLD;
use terramap::classify::DEEP_WATER_THRESHOLD;
use terramap::classify::DESERT_THRESHOLD;
use terramap::classify::MOUNTAIN_THRESHOLD;
use terramap::classify::PLAIN_RESET_VALUE;
use terramap::classify::SAND_RADIUS;
use terramap::classify::SNOW_THRESHOLD;
use terramap::BiomeKind;
use terramap::ScalarGrid;
use terramap::Terrain;
use terramap::TerrainGrid;

fn uniform_field(n: usize, v: u32) -> ScalarGrid {
    ScalarGrid::from_rows(vec![vec![v; n]; n]).unwrap()
}

fn uniform_grid(n: usize, v: u32) -> TerrainGrid {
    TerrainGrid::from_rows(vec![vec![Terrain::Unclassified(v); n]; n]).unwrap()
}

#[test]
fn low_altitude_becomes_deep_water_then_water() {
    // a 5x5 grid of altitude 0.1 everywhere: below the deep-water threshold
    // 0.3, so everything classifies to deep water; the narrowing rule then
    // marks all cells water because 0.1 < 0.2
    let altitude = uniform_field(5, 100);
    let mut base = uniform_grid(5, 100);
    apply_deep_water(&mut base, &altitude, DEEP_WATER_THRESHOLD);
    for i in 0..5 {
        for j in 0..5 {
            assert_eq!(base.at(i, j), Terrain::Biome(BiomeKind::DeepWater));
        }
    }
    apply_water(&mut base, &altitude, DEEP_THRESHOLD);
    for i in 0..5 {
        for j in 0..5 {
            assert_eq!(base.at(i, j), Terrain::Biome(BiomeKind::Water));
        }
    }
}

#[test]
fn water_rule_narrows_only_deep_water() {
    // altitude 0.25: deep water but not below the shallow threshold 0.2
    let altitude = uniform_field(4, 250);
    let mut base = uniform_grid(4, 250);
    apply_deep_water(&mut base, &altitude, DEEP_WATER_THRESHOLD);
    apply_water(&mut base, &altitude, DEEP_THRESHOLD);
    assert_eq!(base.at(0, 0), Terrain::Biome(BiomeKind::DeepWater));
}

#[test]
fn mountain_and_snow_thresholds() {
    let mut rows = vec![vec![500u32; 3]; 3];
    rows[0][0] = 750;
    rows[1][1] = 900;
    let altitude = ScalarGrid::from_rows(rows.clone()).unwrap();
    let mut base = uniform_grid(3, 400);
    apply_mountain_biome(&mut base, &altitude, MOUNTAIN_THRESHOLD, SNOW_THRESHOLD);
    assert_eq!(base.at(0, 0), Terrain::Biome(BiomeKind::Mountain));
    assert_eq!(base.at(1, 1), Terrain::Biome(BiomeKind::MountainSnow));
    assert_eq!(base.at(2, 2), Terrain::Unclassified(400));
}

#[test]
fn sand_ring_stamped_around_water() {
    let n = 7;
    let mut cells = vec![vec![Terrain::Unclassified(400); n]; n];
    cells[3][3] = Terrain::Biome(BiomeKind::Water);
    let mut base = TerrainGrid::from_rows(cells).unwrap();
    let altitude = uniform_field(n, 400);
    apply_sand_biome(&mut base, &altitude, SAND_RADIUS);
    // within Chebyshev radius 2 of the water cell: sand
    assert_eq!(base.at(1, 1), Terrain::Biome(BiomeKind::Sand));
    assert_eq!(base.at(3, 5), Terrain::Biome(BiomeKind::Sand));
    // the water cell itself is untouched
    assert_eq!(base.at(3, 3), Terrain::Biome(BiomeKind::Water));
    // outside the ring: untouched
    assert_eq!(base.at(0, 0), Terrain::Unclassified(400));
}

#[test]
fn sand_needs_low_altitude() {
    let n = 5;
    let mut cells = vec![vec![Terrain::Unclassified(800); n]; n];
    cells[2][2] = Terrain::Biome(BiomeKind::Water);
    let mut base = TerrainGrid::from_rows(cells).unwrap();
    let altitude = uniform_field(n, 800);
    apply_sand_biome(&mut base, &altitude, SAND_RADIUS);
    // altitude 0.8 is not below 0.7: no sand
    assert_eq!(base.at(2, 1), Terrain::Unclassified(800));
}

#[test]
fn marsh_spreads_around_wet_water_edge() {
    let n = 9;
    let mut cells = vec![vec![Terrain::Unclassified(300); n]; n];
    cells[4][4] = Terrain::Biome(BiomeKind::Water);
    let mut base = TerrainGrid::from_rows(cells).unwrap();
    let humidity = uniform_field(n, 800);
    apply_marsh_biome(&mut base, &humidity, MOUNTAIN_THRESHOLD);
    // the humid cell next to water seeds a marsh and swallows its window
    assert_eq!(base.at(4, 4), Terrain::Biome(BiomeKind::Marsh));
    assert_eq!(base.at(4, 5), Terrain::Biome(BiomeKind::Marsh));
    assert_eq!(base.at(2, 2), Terrain::Biome(BiomeKind::Marsh));
}

#[test]
fn marsh_needs_humidity() {
    let n = 5;
    let mut cells = vec![vec![Terrain::Unclassified(300); n]; n];
    cells[2][2] = Terrain::Biome(BiomeKind::Water);
    let mut base = TerrainGrid::from_rows(cells).unwrap();
    let humidity = uniform_field(n, 100);
    apply_marsh_biome(&mut base, &humidity, MOUNTAIN_THRESHOLD);
    assert_eq!(base.at(2, 2), Terrain::Biome(BiomeKind::Water));
    assert_eq!(base.at(2, 3), Terrain::Unclassified(300));
}

#[test]
fn small_desert_pruned_to_plain() {
    // a 50x50 grid, hot only on a 5x7 block of 35 cells: fewer than 40, so
    // the whole block is rewritten to the plain reset value
    let n = 50;
    let mut temp_rows = vec![vec![500u32; n]; n];
    for i in 10..15 {
        for j in 10..17 {
            temp_rows[i][j] = DESERT_THRESHOLD + 50;
        }
    }
    let temperature = ScalarGrid::from_rows(temp_rows).unwrap();
    let mut base = uniform_grid(n, 500);
    apply_desert_biome(&mut base, &temperature, DESERT_THRESHOLD);
    for i in 10..15 {
        for j in 10..17 {
            assert_eq!(base.at(i, j), Terrain::Unclassified(PLAIN_RESET_VALUE));
        }
    }
    assert_eq!(base.at(0, 0), Terrain::Unclassified(500));
}

#[test]
fn large_desert_kept() {
    // a 5x8 block of 40 hot cells: exactly the minimum size, kept
    let n = 50;
    let mut temp_rows = vec![vec![500u32; n]; n];
    for i in 10..15 {
        for j in 10..18 {
            temp_rows[i][j] = DESERT_THRESHOLD + 50;
        }
    }
    let temperature = ScalarGrid::from_rows(temp_rows).unwrap();
    let mut base = uniform_grid(n, 500);
    apply_desert_biome(&mut base, &temperature, DESERT_THRESHOLD);
    for i in 10..15 {
        for j in 10..18 {
            assert_eq!(base.at(i, j), Terrain::Biome(BiomeKind::DesertHot));
        }
    }
}

#[test]
fn disconnected_sand_reverts_to_deep_water() {
    // deep water with no tagged shallow-water cell anywhere: the
    // connectivity mask stays empty, so stray sand is treated as submerged
    let n = 10;
    let mut cells = vec![vec![Terrain::Unclassified(600); n]; n];
    for j in 0..n {
        cells[0][j] = Terrain::Biome(BiomeKind::DeepWater);
    }
    cells[1][4] = Terrain::Biome(BiomeKind::Sand);
    let mut base = TerrainGrid::from_rows(cells).unwrap();
    let zones = mark_water_zones(&base);
    apply_sand_to_shallow_water_transformation(&mut base, &zones);
    assert_eq!(base.at(1, 4), Terrain::Biome(BiomeKind::DeepWater));
    assert_eq!(base.at(2, 4), Terrain::Unclassified(600));
}

#[test]
fn shore_sand_inside_the_water_zone_survives() {
    // a shallow-water seed keeps the connectivity mask alive: sand on the
    // shore stays sand
    let n = 10;
    let mut cells = vec![vec![Terrain::Unclassified(600); n]; n];
    cells[0][0] = Terrain::Biome(BiomeKind::Water);
    cells[0][1] = Terrain::Biome(BiomeKind::DeepWater);
    cells[0][2] = Terrain::Biome(BiomeKind::Sand);
    let mut base = TerrainGrid::from_rows(cells).unwrap();
    let zones = mark_water_zones(&base);
    apply_sand_to_shallow_water_transformation(&mut base, &zones);
    assert_eq!(base.at(0, 2), Terrain::Biome(BiomeKind::Sand));
    assert_eq!(base.at(0, 0), Terrain::Biome(BiomeKind::Water));
}
