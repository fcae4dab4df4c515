use rand::SeedableRng;
use terramap::apply_biomes;
use terramap::classify::PLAIN_RESET_VALUE;
use terramap::settlement::find_plains;
use terramap::settlement::generer_villages_et_villes;
use terramap::settlement::placer_construction;
use terramap::BiomeKind;
use terramap::GridError;
use terramap::ScalarGrid;
use terramap::SettlementKind;
use terramap::Terrain;
use terramap::TerrainGrid;

fn uniform_field(n: usize, v: u32) -> ScalarGrid {
    ScalarGrid::from_rows(vec![vec![v; n]; n]).unwrap()
}

#[test]
fn mismatched_dimensions_are_rejected() {
    let mut base = TerrainGrid::from_rows(vec![vec![Terrain::Unclassified(100); 4]; 4]).unwrap();
    let altitude = uniform_field(5, 100);
    let temperature = uniform_field(4, 500);
    let humidity = uniform_field(4, 500);
    let mut rng = rand::rngs::StdRng::seed_from_u64(1);
    let r = apply_biomes(&mut base, &altitude, &temperature, &humidity, &mut rng);
    assert_eq!(r.err(), Some(GridError::DimensionMismatch));
    assert_eq!(base.at(0, 0), Terrain::Unclassified(100));
}

#[test]
fn pipeline_writes_codes_or_keeps_values() {
    let n = 24;
    let mut alt_rows = vec![vec![500u32; n]; n];
    for i in 0..n {
        for j in 0..6 {
            alt_rows[i][j] = 100;
        }
    }
    for i in 0..4 {
        for j in 18..n {
            alt_rows[i][j] = 900;
        }
    }
    let altitude = ScalarGrid::from_rows(alt_rows).unwrap();
    let temperature = uniform_field(n, 500);
    let humidity = uniform_field(n, 200);
    let mut base = TerrainGrid::from_scalar(&altitude);
    let zero_before = base.at(12, 12);
    assert_eq!(zero_before, Terrain::Unclassified(500));
    let mut rng = rand::rngs::StdRng::seed_from_u64(9);
    let r = apply_biomes(&mut base, &altitude, &temperature, &humidity, &mut rng);
    assert!(r.is_ok());
    // the low stripe is under water, the high corner in the mountains
    assert_eq!(base.at(12, 0), Terrain::Biome(BiomeKind::Water));
    assert_eq!(base.at(0, 20), Terrain::Biome(BiomeKind::MountainSnow));
    // every cell keeps its value, carries a code, or holds the prune reset
    for i in 0..n {
        for j in 0..n {
            match base.at(i, j) {
                Terrain::Unclassified(v) => {
                    assert!(v == alt_rows_value(i, j) || v == PLAIN_RESET_VALUE)
                },
                _ => {},
            }
        }
    }
}

fn alt_rows_value(i: usize, j: usize) -> u32 {
    if j < 6 {
        100
    } else if i < 4 && j >= 18 {
        900
    } else {
        500
    }
}

#[test]
fn find_plains_measures_the_plain_region() {
    let n = 8;
    let mut cells = vec![vec![Terrain::Unclassified(100); n]; n];
    for i in 0..n {
        cells[i][4] = Terrain::Biome(BiomeKind::Mountain);
    }
    let base = TerrainGrid::from_rows(cells).unwrap();
    let plains = find_plains(&base);
    assert_eq!(plains.len(), 2);
    assert_eq!(plains[0], (0, 0, 32));
    assert_eq!(plains[1], (0, 5, 24));
}

#[test]
fn placer_stamps_a_cross_inside_margins() {
    let n = 12;
    let mut base = TerrainGrid::from_rows(vec![vec![Terrain::Unclassified(100); n]; n]).unwrap();
    placer_construction(&mut base, 5, 5, SettlementKind::Village);
    assert_eq!(base.at(5, 5), Terrain::Settlement(SettlementKind::Village));
    assert_eq!(base.at(3, 5), Terrain::Settlement(SettlementKind::Village));
    assert_eq!(base.at(5, 7), Terrain::Settlement(SettlementKind::Village));
    assert_eq!(base.at(4, 4), Terrain::Unclassified(100));
}

#[test]
fn placer_skips_near_borders() {
    let n = 12;
    let mut base = TerrainGrid::from_rows(vec![vec![Terrain::Unclassified(100); n]; n]).unwrap();
    placer_construction(&mut base, 1, 5, SettlementKind::Village);
    for i in 0..n {
        for j in 0..n {
            assert_eq!(base.at(i, j), Terrain::Unclassified(100));
        }
    }
}

#[test]
fn settlements_are_sampled_onto_plains() {
    // a 100x100 all-plain grid has area 10000: one village is sampled; the
    // drawn generator index stays in range, so a village cross appears
    let n = 100;
    let base_cells = vec![vec![Terrain::Unclassified(100); n]; n];
    let mut base = TerrainGrid::from_rows(base_cells).unwrap();
    let plains = find_plains(&base);
    assert_eq!(plains.len(), 1);
    assert_eq!(plains[0].2, 10000);
    let mut rng = rand::rngs::StdRng::seed_from_u64(3);
    generer_villages_et_villes(&mut base, &plains, &mut rng);
    let mut villages = 0;
    for i in 0..n {
        for j in 0..n {
            if base.at(i, j) == Terrain::Settlement(SettlementKind::Village) {
                villages += 1;
            }
        }
    }
    assert_eq!(villages, 9);
}

#[test]
fn degenerate_grids_run_to_completion() {
    // empty and single-cell grids are valid inputs and produce no
    // settlements or roads
    for n in [0usize, 1] {
        let altitude = ScalarGrid::from_rows(vec![vec![500u32; n]; n]).unwrap();
        let temperature = ScalarGrid::from_rows(vec![vec![500u32; n]; n]).unwrap();
        let humidity = ScalarGrid::from_rows(vec![vec![500u32; n]; n]).unwrap();
        let mut base = TerrainGrid::from_scalar(&altitude);
        let mut rng = rand::rngs::StdRng::seed_from_u64(0);
        let r = apply_biomes(&mut base, &altitude, &temperature, &humidity, &mut rng);
        let (anchors, edges, connections) = r.unwrap();
        assert_eq!(anchors.len(), 0);
        assert_eq!(edges.len(), 0);
        assert_eq!(connections.len(), 0);
    }
}

#[test]
fn non_square_input_is_refused_at_construction() {
    assert!(ScalarGrid::from_rows(vec![vec![1, 2, 3], vec![4, 5]]).is_none());
    assert!(TerrainGrid::from_rows(vec![vec![Terrain::Unclassified(1)], vec![]]).is_none());
}

#[test]
fn untouched_zero_cell_stays_zero() {
    // a cell holding exactly zero, with mild altitude, temperature and
    // humidity around it, is touched by no rule and keeps its exact value
    let n = 12;
    let altitude = uniform_field(n, 500);
    let temperature = uniform_field(n, 500);
    let humidity = uniform_field(n, 200);
    let mut cells = vec![vec![Terrain::Unclassified(500); n]; n];
    cells[6][6] = Terrain::Unclassified(0);
    let mut base = TerrainGrid::from_rows(cells).unwrap();
    let mut rng = rand::rngs::StdRng::seed_from_u64(2);
    let r = apply_biomes(&mut base, &altitude, &temperature, &humidity, &mut rng);
    assert!(r.is_ok());
    assert_eq!(base.at(6, 6), Terrain::Unclassified(0));
}
