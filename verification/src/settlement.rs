//! Settlement placement: plains detection, area measurement via flood fill,
//! and stamping of village and city markers proportional to area.

use vstd::prelude::*;

use crate::classify::DARK_FOREST_THRESHOLD;
use crate::grid::SettlementKind;
use crate::grid::Terrain;
use crate::grid::TerrainGrid;
use crate::grid::row_major_lt;
use crate::zone::Mask;
use crate::zone::component;
use crate::zone::connected;
use crate::zone::flood;
use crate::zone::lemma_component_equals_fill;
use crate::zone::lemma_grid_count_bounds;
use crate::zone::lemma_grid_count_set_true;
use crate::zone::lemma_connected_refl;
use crate::zone::lemma_connected_sym;
use crate::zone::lemma_connected_trans;
use crate::zone::list_has;
use crate::zone::mask_at;
use crate::zone::cell_int;
use crate::zone::seeds_of;
use crate::zone::in_bounds;
use crate::zone::lemma_total_cells_rows;
use crate::zone::measure_component_size;
use crate::zone::total_cells;

verus! {

/// One village is sampled for roughly this many plain cells.
pub const PIXELS_PER_VILLAGE: usize = 8000;

/// One city is sampled for roughly this many plain cells.
pub const PIXELS_PER_CITY: usize = 16000;

/// A plain cell: uncategorised low terrain eligible for settlement, in the
/// open range between zero and the dark-forest threshold.
pub open spec fn is_plain(t: Terrain) -> bool {
    match t {
        Terrain::Unclassified(v) => 0 < v < DARK_FOREST_THRESHOLD,
        _ => false,
    }
}

/// Runtime form of [`is_plain`].
fn is_plain_exec(t: Terrain) -> (r: bool)
    ensures
        r == is_plain(t),
{
    match t {
        Terrain::Unclassified(v) => 0 < v && v < DARK_FOREST_THRESHOLD,
        _ => false,
    }
}

/// The seedable random source settlement sampling draws from, declared so
/// that a generator can flow through verified signatures.
#[verifier::external_type_specification]
#[verifier::external_body]
pub struct ExStdRng(rand::rngs::StdRng);

/// Relies on rand's `Rng::gen_range` over `0..bound`: some value below the
/// bound; which one depends on the generator's state.
#[verifier::external_body]
pub(crate) fn rng_below(rng: &mut rand::rngs::StdRng, bound: usize) -> (r: usize)
    requires
        bound > 0,
    ensures
        r < bound,
{
    rand::Rng::gen_range(rng, 0..bound)
}

/// The mask of plain cells of a grid.
pub open spec fn plain_mask(g: Seq<Seq<Terrain>>) -> Seq<Seq<bool>> {
    Seq::new(g.len(), |i: int| Seq::new(g[i].len(), |j: int| is_plain(g[i][j])))
}

/// The cell lies in the plain region of one of the recorded entries.
pub open spec fn covered_by(
    zones: Seq<(usize, usize, usize)>,
    pm: Seq<Seq<bool>>,
    n: int,
    c: (int, int),
) -> bool {
    exists|k: int|
        0 <= k < zones.len() && connected(
            pm,
            n,
            ((#[trigger] zones[k]).0 as int, zones[k].1 as int),
            c,
        )
}

/// Scans the whole grid and returns one `(seed row, seed column, area)`
/// record per connected plain region: each seed is a plain cell, each area
/// is exactly its component's size, every plain cell belongs to exactly one
/// recorded region, and no two seeds share a region.
pub fn find_plains(base: &TerrainGrid) -> (r: Vec<(usize, usize, usize)>)
    requires
        base.wf(base@.len() as int),
        base@.len() * base@.len() < usize::MAX,
    ensures
        ({
            let n = base@.len() as int;
            let pm = plain_mask(base@);
            &&& forall|k: int|
                0 <= k < r@.len() ==> in_bounds(
                    n,
                    ((#[trigger] r@[k]).0 as int, r@[k].1 as int),
                ) && is_plain(base@[r@[k].0 as int][r@[k].1 as int])
            &&& forall|k: int|
                0 <= k < r@.len() ==> component(
                    pm,
                    n,
                    ((#[trigger] r@[k]).0 as int, r@[k].1 as int),
                ).finite() && r@[k].2 == component(
                    pm,
                    n,
                    ((r@[k]).0 as int, r@[k].1 as int),
                ).len()
            &&& forall|c: (int, int)|
                in_bounds(n, c) && mask_at(pm, c) ==> #[trigger] covered_by(r@, pm, n, c)
            &&& forall|k: int, l: int|
                0 <= k < l < r@.len() ==> !connected(
                    pm,
                    n,
                    ((#[trigger] r@[k]).0 as int, r@[k].1 as int),
                    ((#[trigger] r@[l]).0 as int, r@[l].1 as int),
                )
        }),
{
    let n = base.side();
    let ghost nn = n as int;
    let ghost pm = plain_mask(base@);
    let mut allowed = Mask::falses(n);
    let mut i: usize = 0;
    while i < n
        invariant
            i <= n,
            n == base@.len(),
            base.wf(nn),
            allowed.wf(nn),
            forall|r: int, c: int|
                0 <= r < n && 0 <= c < n ==> (#[trigger] allowed@[r][c] <==> r < i && is_plain(
                    base@[r][c],
                )),
        decreases n - i,
    {
        let mut j: usize = 0;
        while j < n
            invariant
                i < n,
                j <= n,
                n == base@.len(),
                base.wf(nn),
                allowed.wf(nn),
                forall|r: int, c: int|
                    0 <= r < n && 0 <= c < n ==> (#[trigger] allowed@[r][c] <==> row_major_lt(
                        r,
                        c,
                        i as int,
                        j as int,
                    ) && is_plain(base@[r][c])),
            decreases n - j,
        {
            if is_plain_exec(base.at(i, j)) {
                allowed.set(i, j, true);
            }
            j += 1;
        }
        i += 1;
    }
    proof {
        assert(allowed@ =~~= pm);
    }
    let mut visited = Mask::falses(n);
    proof {
        lemma_total_cells_rows(visited@, nn);
    }
    let mut zones: Vec<(usize, usize, usize)> = Vec::new();
    let mut i: usize = 0;
    while i < n
        invariant
            i <= n,
            n == base@.len(),
            nn == n as int,
            (n * n) < usize::MAX,
            base.wf(nn),
            allowed.wf(nn),
            visited.wf(nn),
            allowed@ == pm,
            pm == plain_mask(base@),
            total_cells(visited@) == n * n,
            forall|c: (int, int)| in_bounds(nn, c) && mask_at(visited@, c) ==> mask_at(pm, c),
            forall|c: (int, int), d: (int, int)|
                in_bounds(nn, c) && mask_at(visited@, c) && #[trigger] connected(pm, nn, c, d)
                    ==> mask_at(visited@, d),
            forall|c: (int, int)|
                in_bounds(nn, c) && c.0 < i && mask_at(pm, c) ==> mask_at(visited@, c),
            forall|k: int|
                0 <= k < zones@.len() ==> in_bounds(
                    nn,
                    ((#[trigger] zones@[k]).0 as int, zones@[k].1 as int),
                ) && mask_at(pm, (zones@[k].0 as int, zones@[k].1 as int)) && mask_at(
                    visited@,
                    (zones@[k].0 as int, zones@[k].1 as int),
                ),
            forall|k: int|
                0 <= k < zones@.len() ==> component(
                    pm,
                    nn,
                    ((#[trigger] zones@[k]).0 as int, zones@[k].1 as int),
                ).finite() && zones@[k].2 == component(
                    pm,
                    nn,
                    ((zones@[k]).0 as int, zones@[k].1 as int),
                ).len(),
            forall|c: (int, int)|
                in_bounds(nn, c) && mask_at(visited@, c) ==> #[trigger] covered_by(
                    zones@,
                    pm,
                    nn,
                    c,
                ),
            forall|k: int, l: int|
                0 <= k < l < zones@.len() ==> !connected(
                    pm,
                    nn,
                    ((#[trigger] zones@[k]).0 as int, zones@[k].1 as int),
                    ((#[trigger] zones@[l]).0 as int, zones@[l].1 as int),
                ),
        decreases n - i,
    {
        let mut j: usize = 0;
        while j < n
            invariant
                i < n,
                j <= n,
                n == base@.len(),
                nn == n as int,
                (n * n) < usize::MAX,
                base.wf(nn),
                allowed.wf(nn),
                visited.wf(nn),
                allowed@ == pm,
                pm == plain_mask(base@),
                total_cells(visited@) == n * n,
                forall|c: (int, int)| in_bounds(nn, c) && mask_at(visited@, c) ==> mask_at(pm, c),
                forall|c: (int, int), d: (int, int)|
                    in_bounds(nn, c) && mask_at(visited@, c) && #[trigger] connected(pm, nn, c, d)
                        ==> mask_at(visited@, d),
                forall|c: (int, int)|
                    in_bounds(nn, c) && row_major_lt(c.0, c.1, i as int, j as int) && mask_at(
                        pm,
                        c,
                    ) ==> mask_at(visited@, c),
                forall|k: int|
                    0 <= k < zones@.len() ==> in_bounds(
                        nn,
                        ((#[trigger] zones@[k]).0 as int, zones@[k].1 as int),
                    ) && mask_at(pm, (zones@[k].0 as int, zones@[k].1 as int)) && mask_at(
                        visited@,
                        (zones@[k].0 as int, zones@[k].1 as int),
                    ),
                forall|k: int|
                    0 <= k < zones@.len() ==> component(
                        pm,
                        nn,
                        ((#[trigger] zones@[k]).0 as int, zones@[k].1 as int),
                    ).finite() && zones@[k].2 == component(
                        pm,
                        nn,
                        ((zones@[k]).0 as int, zones@[k].1 as int),
                    ).len(),
                forall|c: (int, int)|
                    in_bounds(nn, c) && mask_at(visited@, c) ==> #[trigger] covered_by(
                        zones@,
                        pm,
                        nn,
                        c,
                    ),
                forall|k: int, l: int|
                    0 <= k < l < zones@.len() ==> !connected(
                        pm,
                        nn,
                        ((#[trigger] zones@[k]).0 as int, zones@[k].1 as int),
                        ((#[trigger] zones@[l]).0 as int, zones@[l].1 as int),
                    ),
            decreases n - j,
        {
            if is_plain_exec(base.at(i, j)) && !visited.at(i, j) {
                let ghost ac: (int, int) = (i as int, j as int);
                let ghost vpre = visited@;
                let ghost zones_pre = zones@;
                proof {
                    lemma_grid_count_set_true(visited@, i as int, j as int);
                    lemma_grid_count_bounds(visited@);
                }
                visited.set(i, j, true);
                let ghost m1 = visited@;
                let mut seedv: Vec<(usize, usize)> = Vec::new();
                seedv.push((i, j));
                proof {
                    assert(seedv@[0] == (i, j));
                    assert(seeds_of(seedv@) =~= seq![ac]);
                }
                let news = flood(&mut visited, &allowed, seedv);
                let ghost comp = component(pm, nn, ac);
                let ghost newsg = seeds_of(news@);
                proof {
                    assert forall|c: (int, int)| connected(pm, nn, ac, c) implies c == ac
                        || !mask_at(m1, c) by {
                        if c != ac && mask_at(m1, c) {
                            assert(mask_at(vpre, c));
                            lemma_connected_sym(pm, nn, ac, c);
                            assert(mask_at(vpre, ac));
                        }
                    }
                    lemma_component_equals_fill(pm, m1, nn, ac);
                    assert forall|c: (int, int)| in_bounds(nn, c) implies (mask_at(visited@, c)
                        <==> mask_at(vpre, c) || #[trigger] connected(pm, nn, ac, c)) by {}
                    assert(newsg.no_duplicates()) by {
                        assert forall|k: int, l: int|
                            0 <= k < l < newsg.len() implies newsg[k] != newsg[l] by {
                            assert(news@[k] != news@[l]);
                            assert(newsg[k] == cell_int(news@[k]) && newsg[l] == cell_int(
                                news@[l],
                            ));
                        }
                    }
                    newsg.unique_seq_to_set();
                    assert(comp =~= newsg.to_set().insert(ac)) by {
                        assert forall|c: (int, int)| #![auto] comp.contains(c) implies
                            newsg.to_set().insert(ac).contains(c) by {
                            if c != ac {
                                assert(connected(pm, nn, ac, c));
                                assert(in_bounds(nn, c));
                                assert(!mask_at(m1, c));
                                assert(mask_at(visited@, c));
                                assert(list_has(news@, c));
                                let k = choose|k: int|
                                    0 <= k < news@.len() && cell_int(#[trigger] news@[k]) == c;
                                assert(newsg[k] == c);
                                assert(newsg.contains(c));
                            }
                        }
                        assert forall|c: (int, int)| #![auto] newsg.to_set().insert(ac).contains(
                            c,
                        ) implies comp.contains(c) by {
                            if c == ac {
                                lemma_connected_refl(pm, nn, ac);
                            } else {
                                assert(newsg.contains(c));
                                let k = choose|k: int| 0 <= k < newsg.len() && newsg[k] == c;
                                assert(cell_int(news@[k]) == c);
                                assert(mask_at(visited@, c) && !mask_at(m1, c) && in_bounds(
                                    nn,
                                    c,
                                ));
                                assert(connected(pm, nn, ac, c));
                            }
                        }
                    }
                    assert(!newsg.to_set().contains(ac)) by {
                        if newsg.to_set().contains(ac) {
                            assert(newsg.contains(ac));
                            let k = choose|k: int| 0 <= k < newsg.len() && newsg[k] == ac;
                            assert(cell_int(news@[k]) == ac);
                            assert(!mask_at(m1, ac));
                        }
                    }
                    assert(comp.finite() && comp.len() == news@.len() + 1);
                }
                proof {
                    lemma_grid_count_bounds(visited@);
                    assert(news@.len() <= total_cells(visited@) - 1);
                }
                let taille = news.len() + 1;
                zones.push((i, j, taille));
                proof {
                    lemma_connected_refl(pm, nn, ac);
                    assert forall|c: (int, int)|
                        in_bounds(nn, c) && mask_at(visited@, c) implies #[trigger] covered_by(
                        zones@,
                        pm,
                        nn,
                        c,
                    ) by {
                        if mask_at(vpre, c) {
                            assert(covered_by(zones_pre, pm, nn, c));
                            let k = choose|k: int|
                                0 <= k < zones_pre.len() && connected(
                                    pm,
                                    nn,
                                    ((#[trigger] zones_pre[k]).0 as int, zones_pre[k].1 as int),
                                    c,
                                );
                            assert(zones@[k] == zones_pre[k]);
                        } else {
                            assert(connected(pm, nn, ac, c));
                            assert(zones@[zones@.len() - 1] == (i, j, taille));
                        }
                    }
                    assert forall|k: int, l: int| 0 <= k < l < zones@.len() implies !connected(
                        pm,
                        nn,
                        ((#[trigger] zones@[k]).0 as int, zones@[k].1 as int),
                        ((#[trigger] zones@[l]).0 as int, zones@[l].1 as int),
                    ) by {
                        if l == zones@.len() - 1 {
                            let sk = ((zones@[k]).0 as int, (zones@[k]).1 as int);
                            if connected(pm, nn, sk, ac) {
                                assert(mask_at(vpre, sk));
                                assert(mask_at(vpre, ac));
                            }
                        } else {
                            assert(zones@[k] == zones_pre[k] && zones@[l] == zones_pre[l]);
                        }
                    }
                    assert forall|c: (int, int), d: (int, int)|
                        in_bounds(nn, c) && mask_at(visited@, c) && #[trigger] connected(
                            pm,
                            nn,
                            c,
                            d,
                        ) implies mask_at(visited@, d) by {
                        if mask_at(vpre, c) {
                            assert(mask_at(vpre, d));
                        } else {
                            assert(connected(pm, nn, ac, c));
                            lemma_connected_trans(pm, nn, ac, c, d);
                            assert(in_bounds(nn, d));
                        }
                    }
                    assert forall|k: int| 0 <= k < zones@.len() implies component(
                        pm,
                        nn,
                        ((#[trigger] zones@[k]).0 as int, zones@[k].1 as int),
                    ).finite() && zones@[k].2 == component(
                        pm,
                        nn,
                        ((zones@[k]).0 as int, zones@[k].1 as int),
                    ).len() by {
                        if k < zones_pre.len() {
                            assert(zones@[k] == zones_pre[k]);
                        } else {
                            assert(zones@[k] == (i, j, taille));
                        }
                    }
                }
            }
            proof {
                assert forall|c: (int, int)|
                    in_bounds(nn, c) && row_major_lt(c.0, c.1, i as int, j + 1) && mask_at(pm, c)
                        implies mask_at(visited@, c) by {
                    if c == (i as int, j as int) {
                        assert(mask_at(allowed@, c));
                    }
                }
            }
            j += 1;
        }
        i += 1;
    }
    proof {
        assert forall|c: (int, int)| in_bounds(nn, c) && mask_at(pm, c) implies #[trigger]
            covered_by(zones@, pm, nn, c) by {
            assert(mask_at(visited@, c));
        }
        assert forall|k: int| 0 <= k < zones@.len() implies in_bounds(
            nn,
            ((#[trigger] zones@[k]).0 as int, zones@[k].1 as int),
        ) && is_plain(base@[zones@[k].0 as int][zones@[k].1 as int]) by {
            assert(mask_at(pm, (zones@[k].0 as int, zones@[k].1 as int)));
        }
    }
    zones
}

/// True when the cell lies on the stamped cross of the anchor: the centre or
/// one of the four orthogonal arms of length two.
pub open spec fn on_cross(c: (int, int), d: (int, int)) -> bool {
    (d.0 == c.0 && c.1 - 2 <= d.1 <= c.1 + 2) || (d.1 == c.1 && c.0 - 2 <= d.0 <= c.0 + 2)
}

/// The stamp fits: far enough from every border. A village keeps one more
/// cell of trailing margin than a city, as the original placement rule does.
pub open spec fn stamp_fits(kind: SettlementKind, c: (int, int), n: int) -> bool {
    match kind {
        SettlementKind::Village => c.0 > 2 && c.1 > 2 && c.0 + 3 < n && c.1 + 3 < n,
        SettlementKind::City => c.0 > 2 && c.1 > 2 && c.0 + 2 < n && c.1 + 2 < n,
    }
}

/// Stamps one settlement: a cross of nine cells around the centre, all
/// carrying the settlement code. Too close to a border, nothing is written.
pub fn placer_construction(base: &mut TerrainGrid, i: usize, j: usize, kind: SettlementKind)
    requires
        old(base).wf(old(base)@.len() as int),
    ensures
        final(base).wf(old(base)@.len() as int),
        stamp_fits(kind, (i as int, j as int), old(base)@.len() as int) ==> forall|d: (int, int)|
            in_bounds(old(base)@.len() as int, d) ==> final(base)@[d.0][d.1] == (if on_cross(
                (i as int, j as int),
                d,
            ) {
                Terrain::Settlement(kind)
            } else {
                old(base)@[d.0][d.1]
            }),
        !stamp_fits(kind, (i as int, j as int), old(base)@.len() as int) ==> final(base)@ == old(
            base,
        )@,
{
    let n = base.side();
    let fits = match kind {
        SettlementKind::Village => i > 2 && j > 2 && n > 3 && i < n - 3 && j < n - 3,
        SettlementKind::City => i > 2 && j > 2 && n > 2 && i < n - 2 && j < n - 2,
    };
    if fits {
        let v = Terrain::Settlement(kind);
        base.set(i - 1, j, v);
        base.set(i + 1, j, v);
        base.set(i, j - 1, v);
        base.set(i, j + 1, v);
        base.set(i - 2, j, v);
        base.set(i + 2, j, v);
        base.set(i, j - 2, v);
        base.set(i, j + 2, v);
        base.set(i, j, v);
        proof {
            assert forall|d: (int, int)| in_bounds(n as int, d) implies base@[d.0][d.1] == (if
                on_cross((i as int, j as int), d) {
                Terrain::Settlement(kind)
            } else {
                old(base)@[d.0][d.1]
            }) by {}
        }
    }
}

/// Why a cell changed during placement: it lies on the stamp cross of a
/// centre that was plain in the incoming grid.
pub open spec fn stamp_cause(g0: Seq<Seq<Terrain>>, n: int, c: (int, int)) -> bool {
    exists|s: (int, int)| in_bounds(n, s) && is_plain(g0[s.0][s.1]) && #[trigger] on_cross(s, c)
}

/// Walks every plain region, samples `area / pixelsPerCity` city anchors and
/// `area / pixelsPerVillage` village anchors from density-driven candidate
/// lists, and stamps each with its footprint. Sampling draws from the
/// injected generator, so the contract frames the mutation whatever the
/// generator returns: a cell changes only to a settlement code, and only on
/// the cross of a cell that was plain in the incoming grid. Where the draw
/// cannot matter the outcome is owed: when the first region is large enough
/// for a village, some plain cell exists and every plain cell's village
/// stamp fits, some settlement is placed on every outcome.
pub fn generer_villages_et_villes(
    base: &mut TerrainGrid,
    zones_de_plaines: &Vec<(usize, usize, usize)>,
    rng: &mut rand::rngs::StdRng,
)
    requires
        old(base).wf(old(base)@.len() as int),
    ensures
        final(base).wf(old(base)@.len() as int),
        forall|r: int, c: int|
            0 <= r < old(base)@.len() && 0 <= c < old(base)@.len()
                ==> #[trigger] final(base)@[r][c] == old(base)@[r][c] || ((final(base)@[r][c]
                == Terrain::Settlement(
                SettlementKind::Village,
            ) || final(base)@[r][c] == Terrain::Settlement(SettlementKind::City)) && stamp_cause(
                old(base)@,
                old(base)@.len() as int,
                (r, c),
            )),
        ({
            let n = old(base)@.len() as int;
            (zones_de_plaines@.len() > 0 && zones_de_plaines@[0].2 >= PIXELS_PER_VILLAGE && (
            exists|c: (int, int)| in_bounds(n, c) && is_plain(#[trigger] old(base)@[c.0][c.1]))
                && (forall|c: (int, int)|
                in_bounds(n, c) && is_plain(#[trigger] old(base)@[c.0][c.1]) ==> stamp_fits(
                    SettlementKind::Village,
                    c,
                    n,
                ))) ==> exists|d: (int, int)|
                #[trigger] in_bounds(n, d) && (final(base)@[d.0][d.1] == Terrain::Settlement(
                    SettlementKind::Village,
                ) || final(base)@[d.0][d.1] == Terrain::Settlement(SettlementKind::City))
        }),
{
    let n = base.side();
    let ghost nn = n as int;
    let ghost owed = zones_de_plaines@.len() > 0 && zones_de_plaines@[0].2 >= PIXELS_PER_VILLAGE
        && (exists|c: (int, int)|
        in_bounds(nn, c) && is_plain(#[trigger] old(base)@[c.0][c.1])) && (forall|c: (int, int)|
        in_bounds(nn, c) && is_plain(#[trigger] old(base)@[c.0][c.1]) ==> stamp_fits(
            SettlementKind::Village,
            c,
            nn,
        ));
    let mut z: usize = 0;
    while z < zones_de_plaines.len()
        invariant
            z <= zones_de_plaines@.len(),
            n == old(base)@.len(),
            base.wf(nn),
            nn == n as int,
            owed == (zones_de_plaines@.len() > 0 && zones_de_plaines@[0].2 >= PIXELS_PER_VILLAGE
                && (exists|c: (int, int)|
                in_bounds(nn, c) && is_plain(#[trigger] old(base)@[c.0][c.1])) && (forall|
                c: (int, int),
            |
                in_bounds(nn, c) && is_plain(#[trigger] old(base)@[c.0][c.1]) ==> stamp_fits(
                    SettlementKind::Village,
                    c,
                    nn,
                ))),
            forall|r: int, c: int|
                0 <= r < n && 0 <= c < n ==> #[trigger] base@[r][c] == old(base)@[r][c] || ((
                base@[r][c] == Terrain::Settlement(SettlementKind::Village) || base@[r][c]
                    == Terrain::Settlement(SettlementKind::City)) && stamp_cause(
                    old(base)@,
                    nn,
                    (r, c),
                )),
            z == 0 ==> base@ == old(base)@,
            owed && z > 0 ==> exists|d: (int, int)|
                #[trigger] in_bounds(nn, d) && (base@[d.0][d.1] == Terrain::Settlement(
                    SettlementKind::Village,
                ) || base@[d.0][d.1] == Terrain::Settlement(SettlementKind::City)),
        decreases zones_de_plaines@.len() - z,
    {
        let ghost settled_z = exists|d: (int, int)|
            #[trigger] in_bounds(nn, d) && (base@[d.0][d.1] == Terrain::Settlement(
                SettlementKind::Village,
            ) || base@[d.0][d.1] == Terrain::Settlement(SettlementKind::City));
        let taille = zones_de_plaines[z].2;
        let mut village_positions: Vec<(usize, usize)> = Vec::new();
        let mut city_positions: Vec<(usize, usize)> = Vec::new();
        let mut compteur_pixels: usize = 0;
        let mut villages_a_placer: usize = 0;
        let mut i: usize = 0;
        while i < n
            invariant
                i <= n,
                n == old(base)@.len(),
                base.wf(nn),
                nn == n as int,
                compteur_pixels <= village_positions@.len(),
                villages_a_placer <= 5,
                forall|r: int, c: int|
                    0 <= r < n && 0 <= c < n ==> #[trigger] base@[r][c] == old(base)@[r][c] || ((
                    base@[r][c] == Terrain::Settlement(SettlementKind::Village) || base@[r][c]
                        == Terrain::Settlement(SettlementKind::City)) && stamp_cause(
                        old(base)@,
                        nn,
                        (r, c),
                    )),
                forall|k: int|
                    0 <= k < village_positions@.len() ==> in_bounds(
                        nn,
                        cell_int(#[trigger] village_positions@[k]),
                    ) && is_plain(
                        old(base)@[village_positions@[k].0 as int][village_positions@[k].1 as int],
                    ),
                forall|k: int|
                    0 <= k < city_positions@.len() ==> in_bounds(
                        nn,
                        cell_int(#[trigger] city_positions@[k]),
                    ) && is_plain(
                        old(base)@[city_positions@[k].0 as int][city_positions@[k].1 as int],
                    ),
                z == 0 && (exists|c: (int, int)|
                    in_bounds(nn, c) && row_major_lt(c.0, c.1, i as int, 0) && is_plain(
                        #[trigger] base@[c.0][c.1],
                    )) ==> village_positions@.len() >= 1,
                z == 0 ==> base@ == old(base)@,
            decreases n - i,
        {
            let mut j: usize = 0;
            while j < n
                invariant
                    i < n,
                    j <= n,
                    n == old(base)@.len(),
                    base.wf(nn),
                    nn == n as int,
                    compteur_pixels <= village_positions@.len(),
                    villages_a_placer <= 5,
                    forall|r: int, c: int|
                        0 <= r < n && 0 <= c < n ==> #[trigger] base@[r][c] == old(base)@[r][c]
                            || ((base@[r][c] == Terrain::Settlement(SettlementKind::Village)
                            || base@[r][c] == Terrain::Settlement(SettlementKind::City))
                            && stamp_cause(old(base)@, nn, (r, c))),
                    forall|k: int|
                        0 <= k < village_positions@.len() ==> in_bounds(
                            nn,
                            cell_int(#[trigger] village_positions@[k]),
                        ) && is_plain(
                            old(
                                base,
                            )@[village_positions@[k].0 as int][village_positions@[k].1 as int],
                        ),
                    forall|k: int|
                        0 <= k < city_positions@.len() ==> in_bounds(
                            nn,
                            cell_int(#[trigger] city_positions@[k]),
                        ) && is_plain(
                            old(base)@[city_positions@[k].0 as int][city_positions@[k].1 as int],
                        ),
                    z == 0 && (exists|c: (int, int)|
                        in_bounds(nn, c) && row_major_lt(c.0, c.1, i as int, j as int) && is_plain(
                            #[trigger] base@[c.0][c.1],
                        )) ==> village_positions@.len() >= 1,
                    z == 0 ==> base@ == old(base)@,
                decreases n - j,
            {
                if is_plain_exec(base.at(i, j)) {
                    proof {
                        assert(base@[i as int][j as int] == old(base)@[i as int][j as int] || (
                        base@[i as int][j as int] == Terrain::Settlement(SettlementKind::Village)
                            || base@[i as int][j as int] == Terrain::Settlement(
                            SettlementKind::City,
                        )));
                        assert(is_plain(old(base)@[i as int][j as int]));
                    }
                    village_positions.push((i, j));
                    let cur_len = village_positions.len();
                    proof {
                        assert(compteur_pixels < cur_len);
                    }
                    compteur_pixels += 1;
                    if compteur_pixels % PIXELS_PER_CITY == 0 {
                        city_positions.push((i, j));
                        villages_a_placer = 0;
                    } else if compteur_pixels % PIXELS_PER_VILLAGE == 0 {
                        if villages_a_placer < 5 {
                            villages_a_placer += 1;
                            village_positions.push((i, j));
                        }
                    }
                }
                j += 1;
            }
            i += 1;
        }
        let villes_a_placer = taille / PIXELS_PER_CITY;
        let mut v: usize = 0;
        while v < villes_a_placer
            invariant
                n == old(base)@.len(),
                base.wf(nn),
                nn == n as int,
                settled_z ==> exists|d: (int, int)|
                    #[trigger] in_bounds(nn, d) && (base@[d.0][d.1] == Terrain::Settlement(
                        SettlementKind::Village,
                    ) || base@[d.0][d.1] == Terrain::Settlement(SettlementKind::City)),
                forall|k: int|
                    0 <= k < city_positions@.len() ==> in_bounds(
                        nn,
                        cell_int(#[trigger] city_positions@[k]),
                    ) && is_plain(
                        old(base)@[city_positions@[k].0 as int][city_positions@[k].1 as int],
                    ),
                forall|r: int, c: int|
                    0 <= r < n && 0 <= c < n ==> #[trigger] base@[r][c] == old(base)@[r][c] || ((
                    base@[r][c] == Terrain::Settlement(SettlementKind::Village) || base@[r][c]
                        == Terrain::Settlement(SettlementKind::City)) && stamp_cause(
                        old(base)@,
                        nn,
                        (r, c),
                    )),
            decreases villes_a_placer - v,
        {
            if city_positions.len() > 0 {
                let idx = rng_below(rng, city_positions.len());
                let (ci, cj) = city_positions[idx];
                let ghost bpre = base@;
                placer_construction(base, ci, cj, SettlementKind::City);
                proof {
                    assert forall|r: int, c: int| 0 <= r < n && 0 <= c < n implies #[trigger]
                        base@[r][c] == old(base)@[r][c] || ((base@[r][c] == Terrain::Settlement(
                        SettlementKind::Village,
                    ) || base@[r][c] == Terrain::Settlement(SettlementKind::City)) && stamp_cause(
                        old(base)@,
                        nn,
                        (r, c),
                    )) by {
                        let d: (int, int) = (r, c);
                        assert(in_bounds(nn, d));
                        assert(on_cross((ci as int, cj as int), d) || !on_cross(
                            (ci as int, cj as int),
                            d,
                        ));
                        if base@[d.0][d.1] != bpre[d.0][d.1] {
                            assert(stamp_fits(SettlementKind::City, (ci as int, cj as int), nn));
                            assert(on_cross((ci as int, cj as int), d));
                            assert(is_plain(old(base)@[ci as int][cj as int]));
                            assert(stamp_cause(old(base)@, nn, d));
                        }
                    }
                    if settled_z {
                        let d0 = choose|d: (int, int)|
                            #[trigger] in_bounds(nn, d) && (bpre[d.0][d.1] == Terrain::Settlement(
                                SettlementKind::Village,
                            ) || bpre[d.0][d.1] == Terrain::Settlement(SettlementKind::City));
                        assert(base@[d0.0][d0.1] == bpre[d0.0][d0.1] || base@[d0.0][d0.1]
                            == Terrain::Settlement(SettlementKind::City));
                    }
                }
            }
            v += 1;
        }
        let villages_total = taille / PIXELS_PER_VILLAGE;
        let ghost settled_pre = exists|d: (int, int)|
            #[trigger] in_bounds(nn, d) && (base@[d.0][d.1] == Terrain::Settlement(
                SettlementKind::Village,
            ) || base@[d.0][d.1] == Terrain::Settlement(SettlementKind::City));
        let mut w: usize = 0;
        while w < villages_total
            invariant
                n == old(base)@.len(),
                base.wf(nn),
                nn == n as int,
                owed == (zones_de_plaines@.len() > 0 && zones_de_plaines@[0].2
                    >= PIXELS_PER_VILLAGE && (exists|c: (int, int)|
                    in_bounds(nn, c) && is_plain(#[trigger] old(base)@[c.0][c.1])) && (forall|
                    c: (int, int),
                |
                    in_bounds(nn, c) && is_plain(#[trigger] old(base)@[c.0][c.1]) ==> stamp_fits(
                        SettlementKind::Village,
                        c,
                        nn,
                    ))),
                forall|k: int|
                    0 <= k < village_positions@.len() ==> in_bounds(
                        nn,
                        cell_int(#[trigger] village_positions@[k]),
                    ) && is_plain(
                        old(base)@[village_positions@[k].0 as int][village_positions@[k].1 as int],
                    ),
                forall|r: int, c: int|
                    0 <= r < n && 0 <= c < n ==> #[trigger] base@[r][c] == old(base)@[r][c] || ((
                    base@[r][c] == Terrain::Settlement(SettlementKind::Village) || base@[r][c]
                        == Terrain::Settlement(SettlementKind::City)) && stamp_cause(
                        old(base)@,
                        nn,
                        (r, c),
                    )),
                settled_pre || (owed && z == 0 && village_positions@.len() >= 1 && w > 0)
                    ==> exists|d: (int, int)|
                    #[trigger] in_bounds(nn, d) && (base@[d.0][d.1] == Terrain::Settlement(
                        SettlementKind::Village,
                    ) || base@[d.0][d.1] == Terrain::Settlement(SettlementKind::City)),
            decreases villages_total - w,
        {
            if village_positions.len() > 0 {
                let idx = rng_below(rng, village_positions.len());
                let (vi, vj) = village_positions[idx];
                let ghost bpre = base@;
                placer_construction(base, vi, vj, SettlementKind::Village);
                proof {
                    assert forall|r: int, c: int| 0 <= r < n && 0 <= c < n implies #[trigger]
                        base@[r][c] == old(base)@[r][c] || ((base@[r][c] == Terrain::Settlement(
                        SettlementKind::Village,
                    ) || base@[r][c] == Terrain::Settlement(SettlementKind::City)) && stamp_cause(
                        old(base)@,
                        nn,
                        (r, c),
                    )) by {
                        let d: (int, int) = (r, c);
                        assert(in_bounds(nn, d));
                        assert(on_cross((vi as int, vj as int), d) || !on_cross(
                            (vi as int, vj as int),
                            d,
                        ));
                        if base@[d.0][d.1] != bpre[d.0][d.1] {
                            assert(stamp_fits(
                                SettlementKind::Village,
                                (vi as int, vj as int),
                                nn,
                            ));
                            assert(on_cross((vi as int, vj as int), d));
                            assert(is_plain(old(base)@[vi as int][vj as int]));
                            assert(stamp_cause(old(base)@, nn, d));
                        }
                    }
                    if owed && z == 0 {
                        assert(stamp_fits(SettlementKind::Village, (vi as int, vj as int), nn));
                        assert(base@[vi as int][vj as int] == Terrain::Settlement(
                            SettlementKind::Village,
                        )) by {
                            assert(on_cross((vi as int, vj as int), (vi as int, vj as int)));
                        }
                        assert(in_bounds(nn, (vi as int, vj as int)));
                    }
                    if settled_pre {
                        let d0 = choose|d: (int, int)|
                            #[trigger] in_bounds(nn, d) && (bpre[d.0][d.1] == Terrain::Settlement(
                                SettlementKind::Village,
                            ) || bpre[d.0][d.1] == Terrain::Settlement(SettlementKind::City));
                        assert(base@[d0.0][d0.1] == bpre[d0.0][d0.1] || base@[d0.0][d0.1]
                            == Terrain::Settlement(SettlementKind::Village));
                    }
                }
            }
            w += 1;
        }
        proof {
            if owed && z == 0 {
                let c0 = choose|c: (int, int)|
                    in_bounds(nn, c) && is_plain(#[trigger] old(base)@[c.0][c.1]);
                assert(village_positions@.len() >= 1);
                assert(villages_total >= 1);
            }
        }
        z += 1;
    }
}

} // verus!
