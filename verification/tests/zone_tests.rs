use terramap::zone::dilate;
use terramap::zone::flood;
use terramap::zone::measure_component_size;
use terramap::zone::prune_small_components;
use terramap::zone::Mask;
use terramap::BiomeKind;
use terramap::Terrain;
use terramap::TerrainGrid;

fn mask_from(rows: Vec<Vec<bool>>) -> Mask {
    Mask { cells: rows }
}

#[test]
fn measure_full_grid_returns_total_area() {
    // a fully connected 4x4 grid whose predicate admits every cell measures
    // exactly 16 cells
    let allowed = mask_from(vec![vec![true; 4]; 4]);
    let mut visited = Mask::falses(4);
    let size = measure_component_size(&allowed, &mut visited, (0, 0));
    assert_eq!(size, 16);
}

#[test]
fn measure_stops_at_disallowed_cells() {
    // a wall of refused cells splits the grid; only the left half is counted
    let mut rows = vec![vec![true; 5]; 5];
    for i in 0..5 {
        rows[i][2] = false;
    }
    let allowed = mask_from(rows);
    let mut visited = Mask::falses(5);
    let size = measure_component_size(&allowed, &mut visited, (0, 0));
    assert_eq!(size, 10);
}

#[test]
fn flood_spreads_from_seeds_through_allowed() {
    let mut mask = Mask::falses(3);
    mask.set(0, 0, true);
    let allowed = mask_from(vec![
        vec![false, true, false],
        vec![false, true, false],
        vec![false, true, true],
    ]);
    let news = flood(&mut mask, &allowed, vec![(0, 0)]);
    assert_eq!(news.len(), 4);
    assert!(mask.at(0, 1));
    assert!(mask.at(1, 1));
    assert!(mask.at(2, 1));
    assert!(mask.at(2, 2));
    assert!(!mask.at(1, 0));
}

#[test]
fn dilate_marks_chebyshev_neighbourhood() {
    let mut mask = Mask::falses(5);
    mask.set(2, 2, true);
    let grown = dilate(&mask, 1);
    assert!(grown.at(1, 1));
    assert!(grown.at(3, 3));
    assert!(grown.at(2, 2));
    assert!(!grown.at(0, 0));
    assert!(!grown.at(2, 4));
}

#[test]
fn prune_rewrites_small_components_only() {
    // two desert components: a pair of cells and a row of three; with a
    // minimum size of three only the pair is rewritten
    let n = 6;
    let mut cells = vec![vec![Terrain::Unclassified(500); n]; n];
    cells[0][0] = Terrain::Biome(BiomeKind::DesertHot);
    cells[0][1] = Terrain::Biome(BiomeKind::DesertHot);
    cells[3][0] = Terrain::Biome(BiomeKind::DesertHot);
    cells[3][1] = Terrain::Biome(BiomeKind::DesertHot);
    cells[3][2] = Terrain::Biome(BiomeKind::DesertHot);
    let mut base = TerrainGrid::from_rows(cells).unwrap();
    prune_small_components(
        &mut base,
        Terrain::Biome(BiomeKind::DesertHot),
        Terrain::Unclassified(300),
        3,
    );
    assert_eq!(base.at(0, 0), Terrain::Unclassified(300));
    assert_eq!(base.at(0, 1), Terrain::Unclassified(300));
    assert_eq!(base.at(3, 0), Terrain::Biome(BiomeKind::DesertHot));
    assert_eq!(base.at(3, 1), Terrain::Biome(BiomeKind::DesertHot));
    assert_eq!(base.at(3, 2), Terrain::Biome(BiomeKind::DesertHot));
    assert_eq!(base.at(5, 5), Terrain::Unclassified(500));
}

#[test]
fn diagonal_cells_are_separate_components() {
    let n = 4;
    let mut cells = vec![vec![Terrain::Unclassified(500); n]; n];
    cells[0][0] = Terrain::Biome(BiomeKind::Glacial);
    cells[1][1] = Terrain::Biome(BiomeKind::Glacial);
    let mut base = TerrainGrid::from_rows(cells).unwrap();
    prune_small_components(
        &mut base,
        Terrain::Biome(BiomeKind::Glacial),
        Terrain::Unclassified(300),
        2,
    );
    // each diagonal cell is its own component of size one: both pruned
    assert_eq!(base.at(0, 0), Terrain::Unclassified(300));
    assert_eq!(base.at(1, 1), Terrain::Unclassified(300));
}

#[test]
fn empty_seed_list_marks_nothing() {
    let mut mask = Mask::falses(3);
    let allowed = mask_from(vec![vec![true; 3]; 3]);
    let news = flood(&mut mask, &allowed, vec![]);
    assert_eq!(news.len(), 0);
    assert!(!mask.at(1, 1));
}
