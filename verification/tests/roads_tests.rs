use terramap::roads::bezier_curve;
use terramap::roads::collect_anchors;
use terramap::roads::kruskal;
use terramap::roads::tracer_route;
use terramap::BiomeKind;
use terramap::SettlementKind;
use terramap::Terrain;
use terramap::TerrainGrid;

fn stamp_cross(cells: &mut Vec<Vec<Terrain>>, i: usize, j: usize, kind: SettlementKind) {
    let v = Terrain::Settlement(kind);
    cells[i][j] = v;
    cells[i - 1][j] = v;
    cells[i + 1][j] = v;
    cells[i][j - 1] = v;
    cells[i][j + 1] = v;
    cells[i - 2][j] = v;
    cells[i + 2][j] = v;
    cells[i][j - 2] = v;
    cells[i][j + 2] = v;
}

#[test]
fn bezier_has_101_points_anchored_at_both_ends() {
    let path = bezier_curve((10, 10), (10, 35), (10, 60));
    assert_eq!(path.len(), 101);
    assert_eq!(path[0], (10, 10));
    assert_eq!(path[100], (10, 60));
}

#[test]
fn collect_anchors_finds_only_cross_centres() {
    let n = 20;
    let mut cells = vec![vec![Terrain::Unclassified(100); n]; n];
    stamp_cross(&mut cells, 9, 9, SettlementKind::Village);
    let base = TerrainGrid::from_rows(cells).unwrap();
    let anchors = collect_anchors(&base);
    assert_eq!(anchors, vec![(9, 9)]);
}

#[test]
fn nearby_villages_get_one_road() {
    // two village anchors 50 cells apart: squared distance 2500, under the
    // village cap of 10000, with nothing restricted between them, give
    // exactly one accepted edge whose drawn path covers both anchors
    let n = 70;
    let mut cells = vec![vec![Terrain::Unclassified(100); n]; n];
    stamp_cross(&mut cells, 10, 10, SettlementKind::Village);
    stamp_cross(&mut cells, 10, 60, SettlementKind::Village);
    let mut base = TerrainGrid::from_rows(cells).unwrap();
    let anchors = collect_anchors(&base);
    assert_eq!(anchors.len(), 2);
    let (mst, connections) = kruskal(&anchors, &mut base);
    assert_eq!(mst.len(), 1);
    assert_eq!(connections, vec![1, 1]);
    assert_eq!(base.at(10, 10), Terrain::Route);
    assert_eq!(base.at(10, 35), Terrain::Route);
    assert_eq!(base.at(10, 60), Terrain::Route);
}

#[test]
fn distant_cities_never_become_a_candidate_edge() {
    // two city anchors 500 cells apart: squared distance 250000 is over the
    // 40000 cap, so they are never connected whatever the terrain
    let n = 510;
    let mut cells = vec![vec![Terrain::Unclassified(100); n]; n];
    stamp_cross(&mut cells, 5, 5, SettlementKind::City);
    stamp_cross(&mut cells, 5, 505, SettlementKind::City);
    let mut base = TerrainGrid::from_rows(cells).unwrap();
    let anchors = collect_anchors(&base);
    assert_eq!(anchors.len(), 2);
    let (mst, connections) = kruskal(&anchors, &mut base);
    assert_eq!(mst.len(), 0);
    assert_eq!(connections, vec![0, 0]);
    assert_eq!(base.at(5, 5), Terrain::Settlement(SettlementKind::City));
    assert_eq!(base.at(5, 505), Terrain::Settlement(SettlementKind::City));
}

#[test]
fn restricted_terrain_blocks_the_path() {
    // a mountain wall between the two villages stops the route; the grid is
    // left untouched
    let n = 70;
    let mut cells = vec![vec![Terrain::Unclassified(100); n]; n];
    stamp_cross(&mut cells, 10, 10, SettlementKind::Village);
    stamp_cross(&mut cells, 10, 60, SettlementKind::Village);
    for i in 0..n {
        cells[i][35] = Terrain::Biome(BiomeKind::Mountain);
    }
    let mut base = TerrainGrid::from_rows(cells).unwrap();
    let anchors = collect_anchors(&base);
    let (mst, connections) = kruskal(&anchors, &mut base);
    assert_eq!(mst.len(), 0);
    assert_eq!(connections, vec![0, 0]);
    assert_eq!(base.at(10, 10), Terrain::Settlement(SettlementKind::Village));
}

#[test]
fn tracer_route_draws_or_leaves_untouched() {
    let n = 30;
    let cells = vec![vec![Terrain::Unclassified(100); n]; n];
    let mut base = TerrainGrid::from_rows(cells.clone()).unwrap();
    assert!(tracer_route(&mut base, (5, 5), (5, 25)));
    assert_eq!(base.at(5, 5), Terrain::Route);
    assert_eq!(base.at(5, 25), Terrain::Route);

    let mut blocked = vec![vec![Terrain::Unclassified(100); n]; n];
    blocked[5][15] = Terrain::Biome(BiomeKind::Water);
    let mut base2 = TerrainGrid::from_rows(blocked).unwrap();
    assert!(!tracer_route(&mut base2, (5, 5), (5, 25)));
    assert_eq!(base2.at(5, 5), Terrain::Unclassified(100));
}
