//! Flood-fill zone detection: connected components, dilation and pruning.
//!
//! The engine works on boolean masks. A fill starts from seed cells already
//! marked in the mask and spreads through 4-connected cells that a second
//! mask allows, visiting each cell once with an explicit stack. Its contract
//! characterises the final mask exactly as the set of cells reachable from a
//! seed, which is what the component-size and pruning proofs build on.

use vstd::prelude::*;

use crate::grid::Terrain;
use crate::grid::TerrainGrid;
use crate::grid::grid_wf;
use crate::grid::row_major_lt;

verus! {

/// An NxN boolean grid marking flood-fill membership.
pub struct Mask {
    pub cells: Vec<Vec<bool>>,
}

impl View for Mask {
    type V = Seq<Seq<bool>>;

    open spec fn view(&self) -> Seq<Seq<bool>> {
        self.cells@.map_values(|r: Vec<bool>| r@)
    }
}

impl Mask {
    pub open spec fn wf(&self, n: int) -> bool {
        grid_wf(self@, n)
    }

    /// An all-false mask of side `n`.
    pub fn falses(n: usize) -> (r: Mask)
        ensures
            r.wf(n as int),
            forall|i: int, j: int| 0 <= i < n && 0 <= j < n ==> !(#[trigger] r@[i][j]),
    {
        let mut cells: Vec<Vec<bool>> = Vec::new();
        let mut i: usize = 0;
        while i < n
            invariant
                i <= n,
                cells@.len() == i,
                forall|k: int| 0 <= k < i ==> (#[trigger] cells@[k])@.len() == n,
                forall|k: int, j: int| 0 <= k < i && 0 <= j < n ==> !(#[trigger] cells@[k]@[j]),
            decreases n - i,
        {
            let mut row: Vec<bool> = Vec::new();
            let mut j: usize = 0;
            while j < n
                invariant
                    j <= n,
                    row@.len() == j,
                    forall|l: int| 0 <= l < j ==> !(#[trigger] row@[l]),
                decreases n - j,
            {
                row.push(false);
                j += 1;
            }
            cells.push(row);
            i += 1;
        }
        Mask { cells }
    }

    pub fn side(&self) -> (r: usize)
        ensures
            r == self@.len(),
    {
        self.cells.len()
    }

    pub fn at(&self, i: usize, j: usize) -> (r: bool)
        requires
            self.wf(self@.len() as int),
            i < self@.len(),
            j < self@.len(),
        ensures
            r == self@[i as int][j as int],
    {
        proof {
            assert(self@[i as int] == self.cells@[i as int]@);
        }
        self.cells[i][j]
    }

    pub fn set(&mut self, i: usize, j: usize, v: bool)
        requires
            old(self).wf(old(self)@.len() as int),
            i < old(self)@.len(),
            j < old(self)@.len(),
        ensures
            final(self).wf(old(self)@.len() as int),
            final(self)@ == old(self)@.update(
                i as int,
                old(self)@[i as int].update(j as int, v),
            ),
    {
        proof {
            assert(self@[i as int] == self.cells@[i as int]@);
        }
        let row: &mut Vec<bool> = &mut self.cells[i];
        row.set(j, v);
        proof {
            assert(self@ =~= old(self)@.update(
                i as int,
                old(self)@[i as int].update(j as int, v),
            ));
        }
    }
}

/// Number of true cells in one row.
pub open spec fn row_count(r: Seq<bool>) -> int
    decreases r.len(),
{
    if r.len() <= 0 {
        0
    } else {
        row_count(r.drop_last()) + if r.last() {
            1int
        } else {
            0int
        }
    }
}

/// Number of true cells in a mask.
pub open spec fn grid_count(g: Seq<Seq<bool>>) -> int
    decreases g.len(),
{
    if g.len() <= 0 {
        0
    } else {
        grid_count(g.drop_last()) + row_count(g.last())
    }
}

/// Number of cells in a mask, whatever their value.
pub open spec fn total_cells(g: Seq<Seq<bool>>) -> int
    decreases g.len(),
{
    if g.len() <= 0 {
        0
    } else {
        total_cells(g.drop_last()) + g.last().len()
    }
}

pub proof fn lemma_row_count_bounds(r: Seq<bool>)
    ensures
        0 <= row_count(r) <= r.len(),
    decreases r.len(),
{
    if r.len() > 0 {
        lemma_row_count_bounds(r.drop_last());
    }
}

pub proof fn lemma_grid_count_bounds(g: Seq<Seq<bool>>)
    ensures
        0 <= grid_count(g) <= total_cells(g),
    decreases g.len(),
{
    if g.len() > 0 {
        lemma_grid_count_bounds(g.drop_last());
        lemma_row_count_bounds(g.last());
    }
}

proof fn lemma_row_count_set_true(r: Seq<bool>, j: int)
    requires
        0 <= j < r.len(),
        !r[j],
    ensures
        row_count(r.update(j, true)) == row_count(r) + 1,
    decreases r.len(),
{
    let r2 = r.update(j, true);
    if j == r.len() - 1 {
        assert(r2.drop_last() =~= r.drop_last());
    } else {
        assert(r2.drop_last() =~= r.drop_last().update(j, true));
        lemma_row_count_set_true(r.drop_last(), j);
    }
}

/// Setting one false cell to true raises the count by one and keeps the
/// shape.
pub proof fn lemma_grid_count_set_true(g: Seq<Seq<bool>>, i: int, j: int)
    requires
        0 <= i < g.len(),
        0 <= j < g[i].len(),
        !g[i][j],
    ensures
        grid_count(g.update(i, g[i].update(j, true))) == grid_count(g) + 1,
        total_cells(g.update(i, g[i].update(j, true))) == total_cells(g),
    decreases g.len(),
{
    let g2 = g.update(i, g[i].update(j, true));
    if i == g.len() - 1 {
        assert(g2.drop_last() =~= g.drop_last());
        lemma_row_count_set_true(g[i], j);
    } else {
        assert(g2.drop_last() =~= g.drop_last().update(i, g[i].update(j, true)));
        assert(g2.last() =~= g.last());
        lemma_grid_count_set_true(g.drop_last(), i, j);
    }
}

/// Coordinates inside an NxN grid.
pub open spec fn in_bounds(n: int, c: (int, int)) -> bool {
    0 <= c.0 < n && 0 <= c.1 < n
}

/// 4-connected adjacency: the two cells share an edge.
pub open spec fn adj4(a: (int, int), b: (int, int)) -> bool {
    ||| (a.0 == b.0 && (b.1 == a.1 + 1 || b.1 == a.1 - 1))
    ||| (a.1 == b.1 && (b.0 == a.0 + 1 || b.0 == a.0 - 1))
}

pub open spec fn mask_at(m: Seq<Seq<bool>>, c: (int, int)) -> bool {
    m[c.0][c.1]
}

/// A grid coordinate pair widened for specifications.
pub open spec fn cell_int(p: (usize, usize)) -> (int, int) {
    (p.0 as int, p.1 as int)
}

/// A fill path: it starts on a seed and every later step moves to an
/// adjacent cell that the `allowed` mask admits and the `avoid` mask does
/// not rule out.
pub open spec fn fill_path(
    seeds: Seq<(int, int)>,
    allowed: Seq<Seq<bool>>,
    avoid: Seq<Seq<bool>>,
    n: int,
    p: Seq<(int, int)>,
) -> bool {
    &&& p.len() >= 1
    &&& seeds.contains(p[0])
    &&& in_bounds(n, p[0])
    &&& forall|k: int|
        1 <= k < p.len() ==> in_bounds(n, #[trigger] p[k]) && mask_at(allowed, p[k]) && !mask_at(
            avoid,
            p[k],
        ) && adj4(p[k - 1], p[k])
}

/// A cell a fill can reach from the seeds.
pub open spec fn fill_reaches(
    seeds: Seq<(int, int)>,
    allowed: Seq<Seq<bool>>,
    avoid: Seq<Seq<bool>>,
    n: int,
    c: (int, int),
) -> bool {
    exists|p: Seq<(int, int)>| fill_path(seeds, allowed, avoid, n, p) && p.last() == c
}

/// A reached cell's allowed, unavoided neighbour is reached as well.
proof fn lemma_fill_reaches_step(
    seeds: Seq<(int, int)>,
    allowed: Seq<Seq<bool>>,
    avoid: Seq<Seq<bool>>,
    n: int,
    c: (int, int),
    d: (int, int),
)
    requires
        fill_reaches(seeds, allowed, avoid, n, c),
        in_bounds(n, d),
        mask_at(allowed, d),
        !mask_at(avoid, d),
        adj4(c, d),
    ensures
        fill_reaches(seeds, allowed, avoid, n, d),
{
    let p = choose|p: Seq<(int, int)>| fill_path(seeds, allowed, avoid, n, p) && p.last() == c;
    let p2 = p.push(d);
    assert(p2.last() == d);
    assert(p2[p2.len() - 2] == c);
    assert(forall|k: int| 0 <= k < p.len() ==> p2[k] == #[trigger] p[k]);
    assert(fill_path(seeds, allowed, avoid, n, p2));
}

/// Every allowed in-bounds neighbour of the cell is already marked.
pub open spec fn cell_closed(
    mask: Seq<Seq<bool>>,
    allowed: Seq<Seq<bool>>,
    n: int,
    c: (int, int),
) -> bool {
    forall|d: (int, int)|
        in_bounds(n, d) && #[trigger] adj4(c, d) && mask_at(allowed, d) ==> mask_at(mask, d)
}

/// In a mask that contains the seeds and is closed at every seed and every
/// marked non-avoided cell, every fill path ends on a marked cell.
proof fn lemma_closed_contains_path(
    seeds: Seq<(int, int)>,
    allowed: Seq<Seq<bool>>,
    avoid: Seq<Seq<bool>>,
    mask: Seq<Seq<bool>>,
    n: int,
    p: Seq<(int, int)>,
)
    requires
        forall|c: (int, int)| seeds.contains(c) && in_bounds(n, c) ==> mask_at(mask, c),
        forall|c: (int, int)|
            in_bounds(n, c) && (seeds.contains(c) || (mask_at(mask, c) && !mask_at(avoid, c)))
                ==> #[trigger] cell_closed(mask, allowed, n, c),
        fill_path(seeds, allowed, avoid, n, p),
    ensures
        mask_at(mask, p.last()),
    decreases p.len(),
{
    if p.len() == 1 {
        assert(mask_at(mask, p[0]));
    } else {
        let q = p.drop_last();
        assert(q.len() == p.len() - 1);
        assert(forall|k: int| 0 <= k < q.len() ==> q[k] == #[trigger] p[k]);
        assert(fill_path(seeds, allowed, avoid, n, q));
        lemma_closed_contains_path(seeds, allowed, avoid, mask, n, q);
        let prev = p[p.len() - 2];
        let last = p[p.len() - 1];
        assert(mask_at(mask, prev));
        if p.len() - 2 == 0 {
            assert(seeds.contains(prev));
        } else {
            assert(!mask_at(avoid, prev));
        }
        assert(cell_closed(mask, allowed, n, prev));
        assert(adj4(prev, last) && in_bounds(n, last) && mask_at(allowed, last));
    }
}

/// True when some marked cell lies within the given Chebyshev radius of
/// `(i, j)`.
pub open spec fn near_true(m: Seq<Seq<bool>>, n: int, i: int, j: int, radius: int) -> bool {
    exists|wi: int, wj: int|
        0 <= wi < n && 0 <= wj < n && i - radius <= wi <= i + radius && j - radius <= wj <= j
            + radius && #[trigger] m[wi][wj]
}

/// Scans the Chebyshev window of radius `radius` around `(i, j)` for a
/// marked cell.
fn true_in_window(mask: &Mask, i: usize, j: usize, radius: usize) -> (found: bool)
    requires
        mask.wf(mask@.len() as int),
        i < mask@.len(),
        j < mask@.len(),
    ensures
        found == near_true(mask@, mask@.len() as int, i as int, j as int, radius as int),
{
    let n = mask.side();
    let lo_i: usize = if i >= radius {
        i - radius
    } else {
        0
    };
    let hi_i: usize = if n - 1 - i <= radius {
        n - 1
    } else {
        i + radius
    };
    let lo_j: usize = if j >= radius {
        j - radius
    } else {
        0
    };
    let hi_j: usize = if n - 1 - j <= radius {
        n - 1
    } else {
        j + radius
    };
    let mut wi: usize = lo_i;
    while wi <= hi_i
        invariant
            mask.wf(n as int),
            n == mask@.len(),
            i < n,
            j < n,
            lo_i <= wi <= hi_i + 1,
            hi_i < n,
            hi_j < n,
            i - radius <= lo_i <= i,
            lo_i <= i - radius || lo_i == 0,
            i <= hi_i <= i + radius,
            i + radius <= hi_i || hi_i == n - 1,
            j - radius <= lo_j <= j,
            lo_j <= j - radius || lo_j == 0,
            j <= hi_j <= j + radius,
            j + radius <= hi_j || hi_j == n - 1,
            forall|a: int, b: int|
                lo_i <= a < wi && lo_j <= b <= hi_j ==> !(#[trigger] mask@[a][b]),
        decreases hi_i + 1 - wi,
    {
        let mut wj: usize = lo_j;
        while wj <= hi_j
            invariant
                mask.wf(n as int),
                n == mask@.len(),
                i < n,
                j < n,
                lo_i <= wi <= hi_i,
                lo_j <= wj <= hi_j + 1,
                hi_i < n,
                hi_j < n,
                i - radius <= lo_i <= i,
                i <= hi_i <= i + radius,
                j - radius <= lo_j <= j,
                j <= hi_j <= j + radius,
                forall|a: int, b: int|
                    lo_i <= a < wi && lo_j <= b <= hi_j ==> !(#[trigger] mask@[a][b]),
                forall|b: int| lo_j <= b < wj ==> !(#[trigger] mask@[wi as int][b]),
            decreases hi_j + 1 - wj,
        {
            if mask.at(wi, wj) {
                proof {
                    assert(mask@[wi as int][wj as int]);
                }
                return true;
            }
            wj += 1;
        }
        wi += 1;
    }
    false
}

/// Dilation: marks every cell within Chebyshev distance `radius` of a
/// marked cell. Used to inflate water zones so shoreline cells downstream
/// get reclassified.
pub fn dilate(mask: &Mask, radius: usize) -> (r: Mask)
    requires
        mask.wf(mask@.len() as int),
    ensures
        r.wf(mask@.len() as int),
        forall|i: int, j: int|
            0 <= i < mask@.len() && 0 <= j < mask@.len() ==> #[trigger] r@[i][j] == near_true(
                mask@,
                mask@.len() as int,
                i,
                j,
                radius as int,
            ),
{
    let n = mask.side();
    let mut cells: Vec<Vec<bool>> = Vec::new();
    let mut i: usize = 0;
    while i < n
        invariant
            i <= n,
            n == mask@.len(),
            mask.wf(n as int),
            cells@.len() == i,
            forall|k: int| 0 <= k < i ==> (#[trigger] cells@[k])@.len() == n,
            forall|k: int, l: int|
                0 <= k < i && 0 <= l < n ==> #[trigger] cells@[k]@[l] == near_true(
                    mask@,
                    n as int,
                    k,
                    l,
                    radius as int,
                ),
        decreases n - i,
    {
        let mut row: Vec<bool> = Vec::new();
        let mut j: usize = 0;
        while j < n
            invariant
                j <= n,
                i < n,
                n == mask@.len(),
                mask.wf(n as int),
                row@.len() == j,
                forall|l: int|
                    0 <= l < j ==> #[trigger] row@[l] == near_true(
                        mask@,
                        n as int,
                        i as int,
                        l,
                        radius as int,
                    ),
            decreases n - j,
        {
            row.push(true_in_window(mask, i, j, radius));
            j += 1;
        }
        cells.push(row);
        i += 1;
    }
    Mask { cells }
}

/// Flood fill from one seed through cells that `allowed` admits and that
/// were not already visited; returns the number of cells visited, the size
/// of the seed's connected component inside the unvisited allowed region.
pub fn measure_component_size(allowed: &Mask, visited: &mut Mask, start: (usize, usize)) -> (r:
    usize)
    requires
        old(visited).wf(old(visited)@.len() as int),
        allowed.wf(old(visited)@.len() as int),
        (start.0 as int) < old(visited)@.len(),
        (start.1 as int) < old(visited)@.len(),
        !mask_at(old(visited)@, cell_int(start)),
        total_cells(old(visited)@) < usize::MAX,
    ensures
        final(visited).wf(old(visited)@.len() as int),
        total_cells(final(visited)@) == total_cells(old(visited)@),
        r == grid_count(final(visited)@) - grid_count(old(visited)@),
        r >= 1,
        ({
            let n = old(visited)@.len() as int;
            let m1 = old(visited)@.update(
                start.0 as int,
                old(visited)@[start.0 as int].update(start.1 as int, true),
            );
            forall|c: (int, int)|
                in_bounds(n, c) ==> (mask_at(final(visited)@, c) <==> mask_at(m1, c)
                    || fill_reaches(seq![cell_int(start)], allowed@, m1, n, c))
        }),
{
    proof {
        lemma_grid_count_set_true(visited@, start.0 as int, start.1 as int);
        lemma_grid_count_bounds(visited@);
    }
    visited.set(start.0, start.1, true);
    let mut seeds: Vec<(usize, usize)> = Vec::new();
    seeds.push(start);
    proof {
        assert(seeds@[0] == start);
        assert(seeds_of(seeds@) =~= seq![cell_int(start)]);
        lemma_grid_count_bounds(visited@);
    }
    let news = flood(visited, allowed, seeds);
    proof {
        lemma_grid_count_bounds(visited@);
        assert(news@.len() <= total_cells(old(visited)@) - 1);
    }
    news.len() + 1
}

/// The coordinate occurs in a worklist of grid cells.
pub open spec fn list_has(s: Seq<(usize, usize)>, c: (int, int)) -> bool {
    exists|k: int| 0 <= k < s.len() && cell_int(#[trigger] s[k]) == c
}

/// A worklist widened for specifications.
pub open spec fn seeds_of(s: Seq<(usize, usize)>) -> Seq<(int, int)> {
    s.map_values(|p: (usize, usize)| cell_int(p))
}

/// The flood loop's invariant. `seeds` are the cells the fill started from,
/// `m0` the mask as it was then; `except` names one cell (the one being
/// expanded) whose closure obligation is deferred, or an out-of-bounds pair
/// when there is none.
pub open spec fn flood_inv(
    mask: Mask,
    stack: Seq<(usize, usize)>,
    news: Seq<(usize, usize)>,
    allowed: Mask,
    seeds: Seq<(int, int)>,
    m0: Seq<Seq<bool>>,
    n: int,
    except: (int, int),
) -> bool {
    &&& mask.wf(n)
    &&& allowed.wf(n)
    &&& grid_wf(m0, n)
    &&& total_cells(mask@) == total_cells(m0)
    &&& grid_count(mask@) == grid_count(m0) + news.len()
    &&& 0 <= grid_count(mask@) <= total_cells(mask@)
    // every worklist cell is marked and reachable
    &&& forall|k: int|
        0 <= k < stack.len() ==> in_bounds(n, cell_int(#[trigger] stack[k])) && mask_at(
            mask@,
            cell_int(stack[k]),
        ) && fill_reaches(seeds, allowed@, m0, n, cell_int(stack[k]))
    // marks only grow
    &&& forall|c: (int, int)| in_bounds(n, c) && mask_at(m0, c) ==> mask_at(mask@, c)
    // soundness: every mark is original or reachable
    &&& forall|c: (int, int)|
        in_bounds(n, c) && mask_at(mask@, c) ==> mask_at(m0, c) || fill_reaches(
            seeds,
            allowed@,
            m0,
            n,
            c,
        )
    // every seed or new mark is still queued, closed, or the deferred cell
    &&& forall|c: (int, int)|
        in_bounds(n, c) && (seeds.contains(c) || (mask_at(mask@, c) && !mask_at(m0, c)))
            ==> list_has(stack, c) || #[trigger] cell_closed(mask@, allowed@, n, c) || c == except
    // the new-cell list is exact and duplicate free
    &&& forall|k: int|
        0 <= k < news.len() ==> in_bounds(n, cell_int(#[trigger] news[k])) && mask_at(
            mask@,
            cell_int(news[k]),
        ) && !mask_at(m0, cell_int(news[k]))
    &&& forall|c: (int, int)|
        in_bounds(n, c) && mask_at(mask@, c) && !mask_at(m0, c) ==> list_has(news, c)
    &&& news.no_duplicates()
}

/// Marks, queues and records one neighbour cell if the fill admits it.
fn visit(
    mask: &mut Mask,
    stack: &mut Vec<(usize, usize)>,
    news: &mut Vec<(usize, usize)>,
    allowed: &Mask,
    d: (usize, usize),
    Ghost(seeds): Ghost<Seq<(int, int)>>,
    Ghost(m0): Ghost<Seq<Seq<bool>>>,
    Ghost(n): Ghost<int>,
    Ghost(except): Ghost<(int, int)>,
)
    requires
        flood_inv(*old(mask), old(stack)@, old(news)@, *allowed, seeds, m0, n, except),
        (d.0 as int) < n,
        (d.1 as int) < n,
        mask_at(allowed@, cell_int(d)) && !mask_at(old(mask)@, cell_int(d)) ==> fill_reaches(
            seeds,
            allowed@,
            m0,
            n,
            cell_int(d),
        ),
    ensures
        flood_inv(*final(mask), final(stack)@, final(news)@, *allowed, seeds, m0, n, except),
        forall|c: (int, int)|
            in_bounds(n, c) && mask_at(old(mask)@, c) ==> mask_at(final(mask)@, c),
        mask_at(allowed@, cell_int(d)) ==> mask_at(final(mask)@, cell_int(d)),
        (final(mask)@ == old(mask)@ && final(stack)@ == old(stack)@ && final(news)@ == old(
            news,
        )@) || (grid_count(final(mask)@) == grid_count(old(mask)@) + 1 && final(stack)@.len()
            == old(stack)@.len() + 1),
{
    let i = d.0;
    let j = d.1;
    if allowed.at(i, j) && !mask.at(i, j) {
        proof {
            lemma_grid_count_set_true(mask@, i as int, j as int);
        }
        mask.set(i, j, true);
        stack.push(d);
        news.push(d);
        proof {
            lemma_grid_count_bounds(mask@);
            let mv = mask@;
            let ov = old(mask)@;
            assert forall|c: (int, int)| in_bounds(n, c) && mask_at(mv, c) implies mask_at(
                ov,
                c,
            ) || c == cell_int(d) by {}
            assert forall|c: (int, int)|
                in_bounds(n, c) && (seeds.contains(c) || (mask_at(mv, c) && !mask_at(m0, c)))
                    implies list_has(stack@, c) || #[trigger] cell_closed(mv, allowed@, n, c) || c
                == except by {
                if c == cell_int(d) {
                    assert(stack@[stack@.len() - 1] == d);
                    assert(list_has(stack@, c));
                } else {
                    assert(seeds.contains(c) || (mask_at(ov, c) && !mask_at(m0, c)));
                    if list_has(old(stack)@, c) {
                        let k = choose|k: int|
                            0 <= k < old(stack)@.len() && cell_int(#[trigger] old(stack)@[k]) == c;
                        assert(stack@[k] == old(stack)@[k]);
                        assert(list_has(stack@, c));
                    } else if cell_closed(ov, allowed@, n, c) {
                        assert forall|e: (int, int)|
                            in_bounds(n, e) && #[trigger] adj4(c, e) && mask_at(allowed@, e)
                                implies mask_at(mv, e) by {}
                        assert(cell_closed(mv, allowed@, n, c));
                    }
                }
            }
            assert forall|c: (int, int)|
                in_bounds(n, c) && mask_at(mv, c) && !mask_at(m0, c) implies list_has(
                news@,
                c,
            ) by {
                if c == cell_int(d) {
                    assert(news@[news@.len() - 1] == d);
                } else {
                    let k = choose|k: int|
                        0 <= k < old(news)@.len() && cell_int(#[trigger] old(news)@[k]) == c;
                    assert(news@[k] == old(news)@[k]);
                }
            }
            assert forall|k: int| 0 <= k < old(news)@.len() implies #[trigger] old(news)@[k]
                != d by {
                assert(mask_at(ov, cell_int(old(news)@[k])));
            }
            assert(news@.no_duplicates()) by {
                assert forall|k: int, l: int| 0 <= k < l < news@.len() implies news@[k] != news@[l]
                    by {
                    if l < news@.len() - 1 {
                        assert(old(news)@[k] != old(news)@[l]);
                    }
                }
            }
        }
    }
}

/// Flood fill. Extends `mask` with every cell reachable from a seed through
/// 4-connected cells that `allowed` admits, and returns the cells it added,
/// each exactly once. The seeds must already be marked.
pub fn flood(mask: &mut Mask, allowed: &Mask, stack0: Vec<(usize, usize)>) -> (news: Vec<
    (usize, usize),
>)
    requires
        old(mask).wf(old(mask)@.len() as int),
        allowed.wf(old(mask)@.len() as int),
        forall|k: int|
            0 <= k < stack0@.len() ==> in_bounds(
                old(mask)@.len() as int,
                cell_int(#[trigger] stack0@[k]),
            ) && mask_at(old(mask)@, cell_int(stack0@[k])),
    ensures
        final(mask).wf(old(mask)@.len() as int),
        forall|c: (int, int)|
            in_bounds(old(mask)@.len() as int, c) ==> (mask_at(final(mask)@, c) <==> mask_at(
                old(mask)@,
                c,
            ) || fill_reaches(
                seeds_of(stack0@),
                allowed@,
                old(mask)@,
                old(mask)@.len() as int,
                c,
            )),
        forall|k: int|
            0 <= k < news@.len() ==> in_bounds(
                old(mask)@.len() as int,
                cell_int(#[trigger] news@[k]),
            ) && mask_at(final(mask)@, cell_int(news@[k])) && !mask_at(
                old(mask)@,
                cell_int(news@[k]),
            ),
        forall|c: (int, int)|
            in_bounds(old(mask)@.len() as int, c) && mask_at(final(mask)@, c) && !mask_at(
                old(mask)@,
                c,
            ) ==> list_has(news@, c),
        news@.no_duplicates(),
        grid_count(final(mask)@) == grid_count(old(mask)@) + news@.len(),
        total_cells(final(mask)@) == total_cells(old(mask)@),
{
    let ghost n = old(mask)@.len() as int;
    let ghost m0 = old(mask)@;
    let ghost seeds = seeds_of(stack0@);
    let ghost none: (int, int) = (-1, -1);
    proof {
        assert forall|c: (int, int)| seeds.contains(c) implies in_bounds(n, c) && mask_at(
            m0,
            c,
        ) by {
            let k = choose|k: int| 0 <= k < seeds.len() && seeds[k] == c;
            assert(cell_int(stack0@[k]) == c);
        }
    }
    let mut stack = stack0;
    let mut news: Vec<(usize, usize)> = Vec::new();
    proof {
        lemma_grid_count_bounds(mask@);
        assert forall|k: int| 0 <= k < stack@.len() implies in_bounds(
            n,
            cell_int(#[trigger] stack@[k]),
        ) && mask_at(mask@, cell_int(stack@[k])) && fill_reaches(
            seeds,
            allowed@,
            m0,
            n,
            cell_int(stack@[k]),
        ) by {
            let c = cell_int(stack@[k]);
            let p: Seq<(int, int)> = seq![c];
            assert(seeds[k] == c);
            assert(seeds.contains(c));
            assert(fill_path(seeds, allowed@, m0, n, p));
            assert(p.last() == c);
        }
        assert forall|c: (int, int)|
            in_bounds(n, c) && (seeds.contains(c) || (mask_at(mask@, c) && !mask_at(m0, c)))
                implies list_has(stack@, c) || cell_closed(mask@, allowed@, n, c) || c
            == none by {
            if seeds.contains(c) {
                let k = choose|k: int| 0 <= k < seeds.len() && seeds[k] == c;
                assert(cell_int(stack@[k]) == c);
                assert(list_has(stack@, c));
            }
        }
    }
    while stack.len() > 0
        invariant
            flood_inv(*mask, stack@, news@, *allowed, seeds, m0, n, none),
            n == m0.len(),
            !in_bounds(n, none),
            forall|c: (int, int)| #[trigger] seeds.contains(c) ==> in_bounds(n, c) && mask_at(
                m0,
                c,
            ),
        decreases total_cells(mask@) - grid_count(mask@), stack@.len(),
    {
        let ghost stack_pre = stack@;
        let c = stack.pop().unwrap();
        let ghost except = cell_int(c);
        proof {
            assert(cell_int(c) == cell_int(stack_pre[stack_pre.len() - 1]));
            assert(in_bounds(n, cell_int(c)));
            assert(fill_reaches(seeds, allowed@, m0, n, cell_int(c)));
            assert forall|cc: (int, int)|
                in_bounds(n, cc) && (seeds.contains(cc) || (mask_at(mask@, cc) && !mask_at(
                    m0,
                    cc,
                ))) implies list_has(stack@, cc) || #[trigger] cell_closed(
                mask@,
                allowed@,
                n,
                cc,
            ) || cc == except by {
                if list_has(stack_pre, cc) && cc != except {
                    let k = choose|k: int|
                        0 <= k < stack_pre.len() && cell_int(#[trigger] stack_pre[k]) == cc;
                    if k < stack_pre.len() - 1 {
                        assert(stack@[k] == stack_pre[k]);
                        assert(list_has(stack@, cc));
                    }
                }
            }
            assert(flood_inv(*mask, stack@, news@, *allowed, seeds, m0, n, except));
        }
        if c.0 > 0 {
            let d = (c.0 - 1, c.1);
            proof {
                if mask_at(allowed@, cell_int(d)) && !mask_at(mask@, cell_int(d)) {
                    lemma_fill_reaches_step(seeds, allowed@, m0, n, cell_int(c), cell_int(d));
                }
            }
            visit(mask, &mut stack, &mut news, allowed, d, Ghost(seeds), Ghost(m0), Ghost(n),
                Ghost(except));
        }
        if c.1 > 0 {
            let d = (c.0, c.1 - 1);
            proof {
                if mask_at(allowed@, cell_int(d)) && !mask_at(mask@, cell_int(d)) {
                    lemma_fill_reaches_step(seeds, allowed@, m0, n, cell_int(c), cell_int(d));
                }
            }
            visit(mask, &mut stack, &mut news, allowed, d, Ghost(seeds), Ghost(m0), Ghost(n),
                Ghost(except));
        }
        if c.0 < mask.side() - 1 {
            let d = (c.0 + 1, c.1);
            proof {
                if mask_at(allowed@, cell_int(d)) && !mask_at(mask@, cell_int(d)) {
                    lemma_fill_reaches_step(seeds, allowed@, m0, n, cell_int(c), cell_int(d));
                }
            }
            visit(mask, &mut stack, &mut news, allowed, d, Ghost(seeds), Ghost(m0), Ghost(n),
                Ghost(except));
        }
        if c.1 < mask.side() - 1 {
            let d = (c.0, c.1 + 1);
            proof {
                if mask_at(allowed@, cell_int(d)) && !mask_at(mask@, cell_int(d)) {
                    lemma_fill_reaches_step(seeds, allowed@, m0, n, cell_int(c), cell_int(d));
                }
            }
            visit(mask, &mut stack, &mut news, allowed, d, Ghost(seeds), Ghost(m0), Ghost(n),
                Ghost(except));
        }
        proof {
            assert(cell_closed(mask@, allowed@, n, except)) by {
                assert forall|e: (int, int)|
                    in_bounds(n, e) && #[trigger] adj4(except, e) && mask_at(allowed@, e)
                        implies mask_at(mask@, e) by {
                    assert(e == (c.0 - 1, c.1 as int) || e == (c.0 as int, c.1 - 1) || e == (
                    c.0 + 1, c.1 as int) || e == (c.0 as int, c.1 + 1));
                }
            }
            assert forall|cc: (int, int)|
                in_bounds(n, cc) && (seeds.contains(cc) || (mask_at(mask@, cc) && !mask_at(
                    m0,
                    cc,
                ))) implies list_has(stack@, cc) || #[trigger] cell_closed(
                mask@,
                allowed@,
                n,
                cc,
            ) || cc == none by {
                if cc == except {
                    assert(cell_closed(mask@, allowed@, n, cc));
                }
            }
        }
    }
    proof {
        assert forall|c: (int, int)|
            in_bounds(n, c) && fill_reaches(seeds, allowed@, m0, n, c) implies mask_at(
            mask@,
            c,
        ) by {
            let p = choose|p: Seq<(int, int)>|
                fill_path(seeds, allowed@, m0, n, p) && p.last() == c;
            assert forall|cc: (int, int)| #[trigger] seeds.contains(cc) && in_bounds(n, cc)
                implies mask_at(mask@, cc) by {
                assert(mask_at(m0, cc));
            }
            lemma_closed_contains_path(seeds, allowed@, m0, mask@, n, p);
        }
    }
    news
}

/// A path through marked cells only: every cell, the first included, is
/// marked, and consecutive cells are 4-adjacent.
pub open spec fn comp_path(m: Seq<Seq<bool>>, n: int, p: Seq<(int, int)>) -> bool {
    &&& p.len() >= 1
    &&& forall|k: int| 0 <= k < p.len() ==> in_bounds(n, #[trigger] p[k]) && mask_at(m, p[k])
    &&& forall|k: int| 1 <= k < p.len() ==> adj4(p[k - 1], #[trigger] p[k])
}

/// The two cells lie in the same connected component of the mask.
pub open spec fn connected(m: Seq<Seq<bool>>, n: int, a: (int, int), b: (int, int)) -> bool {
    exists|p: Seq<(int, int)>| #[trigger] comp_path(m, n, p) && p[0] == a && p.last() == b
}

/// The connected component of a cell.
pub open spec fn component(m: Seq<Seq<bool>>, n: int, a: (int, int)) -> Set<(int, int)> {
    Set::new(|b: (int, int)| connected(m, n, a, b))
}

/// A marked cell is connected to itself.
pub proof fn lemma_connected_refl(m: Seq<Seq<bool>>, n: int, a: (int, int))
    requires
        in_bounds(n, a),
        mask_at(m, a),
    ensures
        connected(m, n, a, a),
{
    let p: Seq<(int, int)> = seq![a];
    assert(comp_path(m, n, p) && p[0] == a && p.last() == a);
}

/// Connectivity is symmetric: reverse the path.
pub proof fn lemma_connected_sym(m: Seq<Seq<bool>>, n: int, a: (int, int), b: (int, int))
    requires
        connected(m, n, a, b),
    ensures
        connected(m, n, b, a),
{
    let p = choose|p: Seq<(int, int)>| #[trigger] comp_path(m, n, p) && p[0] == a && p.last() == b;
    let q = Seq::new(p.len(), |k: int| p[p.len() - 1 - k]);
    assert forall|k: int| 1 <= k < q.len() implies adj4(q[k - 1], #[trigger] q[k]) by {
        let l = p.len() - k;
        assert(q[k - 1] == p[l] && q[k] == p[l - 1]);
        assert(adj4(p[l - 1], p[l]));
    }
    assert(comp_path(m, n, q) && q[0] == b && q.last() == a);
}

/// Connectivity is transitive: concatenate the paths.
pub proof fn lemma_connected_trans(
    m: Seq<Seq<bool>>,
    n: int,
    a: (int, int),
    b: (int, int),
    c: (int, int),
)
    requires
        connected(m, n, a, b),
        connected(m, n, b, c),
    ensures
        connected(m, n, a, c),
{
    let p = choose|p: Seq<(int, int)>| #[trigger] comp_path(m, n, p) && p[0] == a && p.last() == b;
    let q = choose|q: Seq<(int, int)>| #[trigger] comp_path(m, n, q) && q[0] == b && q.last() == c;
    let r = p + q.subrange(1, q.len() as int);
    assert(r.len() == p.len() + q.len() - 1);
    assert forall|k: int| 0 <= k < r.len() implies in_bounds(n, #[trigger] r[k]) && mask_at(
        m,
        r[k],
    ) by {
        if k < p.len() {
            assert(r[k] == p[k]);
        } else {
            assert(r[k] == q[k - p.len() + 1]);
        }
    }
    assert forall|k: int| 1 <= k < r.len() implies adj4(r[k - 1], #[trigger] r[k]) by {
        if k < p.len() {
            assert(r[k] == p[k] && r[k - 1] == p[k - 1]);
        } else if k == p.len() {
            assert(r[k - 1] == p[p.len() - 1] && r[k] == q[1]);
            assert(p.last() == b && q[0] == b);
            assert(adj4(q[0], q[1]));
        } else {
            assert(r[k] == q[k - p.len() + 1] && r[k - 1] == q[k - p.len()]);
            assert(adj4(q[k - p.len()], q[k - p.len() + 1]));
        }
    }
    assert(r[0] == a && r.last() == c);
    assert(comp_path(m, n, r));
}

/// Cells of one component have equal components.
pub proof fn lemma_component_eq(m: Seq<Seq<bool>>, n: int, a: (int, int), b: (int, int))
    requires
        connected(m, n, a, b),
    ensures
        component(m, n, a) == component(m, n, b),
{
    assert forall|e: (int, int)| #![auto] component(m, n, a).contains(e) implies component(
        m,
        n,
        b,
    ).contains(e) by {
        lemma_connected_sym(m, n, a, b);
        lemma_connected_trans(m, n, b, a, e);
    }
    assert forall|e: (int, int)| #![auto] component(m, n, b).contains(e) implies component(
        m,
        n,
        a,
    ).contains(e) by {
        lemma_connected_trans(m, n, a, b, e);
    }
    assert(component(m, n, a) =~= component(m, n, b));
}

/// A marked-cell path whose component avoids the `avoid` mask (except
/// perhaps at its own start) is matched by a fill path from the start.
proof fn lemma_comp_path_to_fill(
    m: Seq<Seq<bool>>,
    avoid: Seq<Seq<bool>>,
    n: int,
    a: (int, int),
    p: Seq<(int, int)>,
)
    requires
        comp_path(m, n, p),
        p[0] == a,
        forall|c: (int, int)| connected(m, n, a, c) ==> c == a || !mask_at(avoid, c),
    ensures
        p.last() == a || fill_reaches(seq![a], m, avoid, n, p.last()),
    decreases p.len(),
{
    if exists|k: int| 1 <= k < p.len() && p[k] == a {
        let k = choose|k: int| 1 <= k < p.len() && p[k] == a;
        let p2 = p.subrange(k, p.len() as int);
        assert(p2.len() == p.len() - k);
        assert forall|l: int| 0 <= l < p2.len() implies in_bounds(n, #[trigger] p2[l]) && mask_at(
            m,
            p2[l],
        ) by {
            assert(p2[l] == p[k + l]);
        }
        assert forall|l: int| 1 <= l < p2.len() implies adj4(p2[l - 1], #[trigger] p2[l]) by {
            assert(p2[l] == p[k + l] && p2[l - 1] == p[k + l - 1]);
            assert(adj4(p[k + l - 1], p[k + l]));
        }
        assert(comp_path(m, n, p2) && p2[0] == a && p2.last() == p.last());
        lemma_comp_path_to_fill(m, avoid, n, a, p2);
    } else {
        if p.len() == 1 {
            assert(p.last() == a);
        } else {
            let seeds: Seq<(int, int)> = seq![a];
            assert(seeds[0] == a);
            assert(seeds.contains(p[0]));
            assert forall|k: int|
                1 <= k < p.len() implies in_bounds(n, #[trigger] p[k]) && mask_at(m, p[k])
                && !mask_at(avoid, p[k]) && adj4(p[k - 1], p[k]) by {
                let pre = p.subrange(0, k + 1);
                assert forall|l: int| 0 <= l < pre.len() implies in_bounds(
                    n,
                    #[trigger] pre[l],
                ) && mask_at(m, pre[l]) by {
                    assert(pre[l] == p[l]);
                }
                assert forall|l: int| 1 <= l < pre.len() implies adj4(
                    pre[l - 1],
                    #[trigger] pre[l],
                ) by {
                    assert(pre[l] == p[l] && pre[l - 1] == p[l - 1]);
                    assert(adj4(p[l - 1], p[l]));
                }
                assert(comp_path(m, n, pre) && pre[0] == a && pre.last() == p[k]);
                assert(connected(m, n, a, p[k]));
                assert(p[k] != a);
            }
            assert(fill_path(seeds, m, avoid, n, p) && p.last() == p.last());
            assert(fill_reaches(seeds, m, avoid, n, p.last()));
        }
    }
}

/// When a component avoids the `avoid` mask, the cells a fill reaches from
/// its seed are exactly the component.
pub proof fn lemma_component_equals_fill(
    m: Seq<Seq<bool>>,
    avoid: Seq<Seq<bool>>,
    n: int,
    a: (int, int),
)
    requires
        in_bounds(n, a),
        mask_at(m, a),
        forall|c: (int, int)| connected(m, n, a, c) ==> c == a || !mask_at(avoid, c),
    ensures
        forall|c: (int, int)|
            in_bounds(n, c) ==> ((c == a || fill_reaches(seq![a], m, avoid, n, c)) <==> #[trigger]
            connected(m, n, a, c)),
{
    assert forall|c: (int, int)|
        in_bounds(n, c) && (c == a || fill_reaches(seq![a], m, avoid, n, c))
        implies #[trigger] connected(m, n, a, c) by {
        if c == a {
            lemma_connected_refl(m, n, a);
        } else {
            let p = choose|p: Seq<(int, int)>|
                fill_path(seq![a], m, avoid, n, p) && p.last() == c;
            let seeds: Seq<(int, int)> = seq![a];
            assert(seeds.contains(p[0]));
            assert(seeds[0] == a);
            assert forall|l: int| 0 <= l < p.len() implies in_bounds(n, #[trigger] p[l])
                && mask_at(m, p[l]) by {
                if l == 0 {
                    let k = choose|k: int| 0 <= k < seeds.len() && seeds[k] == p[0];
                    assert(p[0] == a);
                }
            }
            assert(comp_path(m, n, p) && p[0] == a && p.last() == c);
        }
    }
    assert forall|c: (int, int)| in_bounds(n, c) && #[trigger] connected(m, n, a, c) implies (c
        == a || fill_reaches(seq![a], m, avoid, n, c)) by {
        let p = choose|p: Seq<(int, int)>|
            #[trigger] comp_path(m, n, p) && p[0] == a && p.last() == c;
        lemma_comp_path_to_fill(m, avoid, n, a, p);
    }
}

/// The mask of cells carrying one terrain code.
pub open spec fn target_mask(g: Seq<Seq<Terrain>>, t: Terrain) -> Seq<Seq<bool>> {
    Seq::new(g.len(), |i: int| Seq::new(g[i].len(), |j: int| g[i][j] == t))
}

/// Finds every connected component of cells equal to `target` and rewrites
/// each component smaller than `min_size` to `replacement`; larger
/// components and all other cells are untouched.
pub fn prune_small_components(
    base: &mut TerrainGrid,
    target: Terrain,
    replacement: Terrain,
    min_size: usize,
)
    requires
        old(base).wf(old(base)@.len() as int),
        replacement != target,
    ensures
        final(base).wf(old(base)@.len() as int),
        forall|c: (int, int)|
            in_bounds(old(base)@.len() as int, c) && old(base)@[c.0][c.1] != target
                ==> final(base)@[c.0][c.1] == old(base)@[c.0][c.1],
        forall|c: (int, int)|
            in_bounds(old(base)@.len() as int, c) && #[trigger] old(base)@[c.0][c.1] == target
                ==> component(
                target_mask(old(base)@, target),
                old(base)@.len() as int,
                c,
            ).finite() && final(base)@[c.0][c.1] == (if component(
                target_mask(old(base)@, target),
                old(base)@.len() as int,
                c,
            ).len() < min_size {
                replacement
            } else {
                old(base)@[c.0][c.1]
            }),
{
    let n = base.side();
    let ghost nn = n as int;
    let ghost g0 = old(base)@;
    let ghost tm = target_mask(g0, target);
    let mut allowed = Mask::falses(n);
    let mut i: usize = 0;
    while i < n
        invariant
            i <= n,
            n == g0.len(),
            nn == n as int,
            base.wf(nn),
            base@ == g0,
            allowed.wf(nn),
            forall|r: int, c: int|
                0 <= r < n && 0 <= c < n ==> (#[trigger] allowed@[r][c] <==> r < i && g0[r][c]
                    == target),
        decreases n - i,
    {
        let mut j: usize = 0;
        while j < n
            invariant
                i < n,
                j <= n,
                n == g0.len(),
                nn == n as int,
                base.wf(nn),
                base@ == g0,
                allowed.wf(nn),
                forall|r: int, c: int|
                    0 <= r < n && 0 <= c < n ==> (#[trigger] allowed@[r][c] <==> row_major_lt(
                        r,
                        c,
                        i as int,
                        j as int,
                    ) && g0[r][c] == target),
            decreases n - j,
        {
            if base.at(i, j) == target {
                allowed.set(i, j, true);
            }
            j += 1;
        }
        i += 1;
    }
    proof {
        assert(allowed@ =~~= tm);
    }
    let mut visited = Mask::falses(n);
    let mut i: usize = 0;
    while i < n
        invariant
            i <= n,
            n == g0.len(),
            nn == n as int,
            base.wf(nn),
            allowed.wf(nn),
            visited.wf(nn),
            allowed@ == tm,
            replacement != target,
            forall|c: (int, int)| in_bounds(nn, c) && mask_at(visited@, c) ==> mask_at(tm, c),
            forall|c: (int, int), d: (int, int)|
                in_bounds(nn, c) && mask_at(visited@, c) && #[trigger] connected(tm, nn, c, d)
                    ==> mask_at(visited@, d),
            forall|c: (int, int)|
                in_bounds(nn, c) && c.0 < i && mask_at(tm, c) ==> mask_at(visited@, c),
            forall|c: (int, int)|
                in_bounds(nn, c) && mask_at(tm, c) && mask_at(visited@, c) ==> #[trigger] component(
                    tm,
                    nn,
                    c,
                ).finite(),
            forall|c: (int, int)|
                in_bounds(nn, c) ==> #[trigger] base@[c.0][c.1] == (if mask_at(tm, c) && mask_at(
                    visited@,
                    c,
                ) && component(tm, nn, c).len() < min_size {
                    replacement
                } else {
                    g0[c.0][c.1]
                }),
        decreases n - i,
    {
        let mut j: usize = 0;
        while j < n
            invariant
                i < n,
                j <= n,
                n == g0.len(),
                nn == n as int,
                base.wf(nn),
                allowed.wf(nn),
                visited.wf(nn),
                allowed@ == tm,
                replacement != target,
                forall|c: (int, int)| in_bounds(nn, c) && mask_at(visited@, c) ==> mask_at(tm, c),
                forall|c: (int, int), d: (int, int)|
                    in_bounds(nn, c) && mask_at(visited@, c) && #[trigger] connected(tm, nn, c, d)
                        ==> mask_at(visited@, d),
                forall|c: (int, int)|
                    in_bounds(nn, c) && row_major_lt(c.0, c.1, i as int, j as int) && mask_at(
                        tm,
                        c,
                    ) ==> mask_at(visited@, c),
                forall|c: (int, int)|
                    in_bounds(nn, c) && mask_at(tm, c) && mask_at(visited@, c)
                        ==> #[trigger] component(tm, nn, c).finite(),
                forall|c: (int, int)|
                    in_bounds(nn, c) ==> #[trigger] base@[c.0][c.1] == (if mask_at(tm, c)
                        && mask_at(visited@, c) && component(tm, nn, c).len() < min_size {
                        replacement
                    } else {
                        g0[c.0][c.1]
                    }),
            decreases n - j,
        {
            if allowed.at(i, j) && !visited.at(i, j) {
                let ghost ac: (int, int) = (i as int, j as int);
                let ghost vpre = visited@;
                let ghost gpre = base@;
                visited.set(i, j, true);
                let ghost m1 = visited@;
                let mut seedv: Vec<(usize, usize)> = Vec::new();
                seedv.push((i, j));
                proof {
                    assert(seedv@[0] == (i, j));
                    assert(seeds_of(seedv@) =~= seq![ac]);
                }
                let news = flood(&mut visited, &allowed, seedv);
                let ghost comp = component(tm, nn, ac);
                let ghost newsg = seeds_of(news@);
                proof {
                    assert forall|c: (int, int)| connected(tm, nn, ac, c) implies c == ac
                        || !mask_at(m1, c) by {
                        if c != ac && mask_at(m1, c) {
                            assert(mask_at(vpre, c));
                            lemma_connected_sym(tm, nn, ac, c);
                            assert(mask_at(vpre, ac));
                        }
                    }
                    lemma_component_equals_fill(tm, m1, nn, ac);
                    // the newly visited cells plus the seed are exactly the component
                    assert forall|c: (int, int)| in_bounds(nn, c) implies (mask_at(visited@, c)
                        <==> mask_at(vpre, c) || #[trigger] connected(tm, nn, ac, c)) by {}
                    assert(newsg.no_duplicates()) by {
                        assert forall|k: int, l: int|
                            0 <= k < l < newsg.len() implies newsg[k] != newsg[l] by {
                            assert(news@[k] != news@[l]);
                            assert(newsg[k] == cell_int(news@[k]) && newsg[l] == cell_int(
                                news@[l],
                            ));
                        }
                    }
                    newsg.unique_seq_to_set();
                    assert(comp =~= newsg.to_set().insert(ac)) by {
                        assert forall|c: (int, int)| #![auto] comp.contains(c) implies
                            newsg.to_set().insert(ac).contains(c) by {
                            if c != ac {
                                assert(connected(tm, nn, ac, c));
                                assert(in_bounds(nn, c));
                                assert(!mask_at(m1, c));
                                assert(mask_at(visited@, c));
                                assert(list_has(news@, c));
                                let k = choose|k: int|
                                    0 <= k < news@.len() && cell_int(#[trigger] news@[k]) == c;
                                assert(newsg[k] == c);
                                assert(newsg.contains(c));
                            }
                        }
                        assert forall|c: (int, int)| #![auto] newsg.to_set().insert(ac).contains(
                            c,
                        ) implies comp.contains(c) by {
                            if c == ac {
                                lemma_connected_refl(tm, nn, ac);
                            } else {
                                assert(newsg.contains(c));
                                let k = choose|k: int|
                                    0 <= k < newsg.len() && newsg[k] == c;
                                assert(cell_int(news@[k]) == c);
                                assert(mask_at(visited@, c) && !mask_at(m1, c) && in_bounds(
                                    nn,
                                    c,
                                ));
                                assert(connected(tm, nn, ac, c));
                            }
                        }
                    }
                    assert(!newsg.to_set().contains(ac)) by {
                        if newsg.to_set().contains(ac) {
                            assert(newsg.contains(ac));
                            let k = choose|k: int| 0 <= k < newsg.len() && newsg[k] == ac;
                            assert(cell_int(news@[k]) == ac);
                            assert(!mask_at(m1, ac));
                        }
                    }
                    assert(comp.finite() && comp.len() == news@.len() + 1);
                }
                let small = min_size >= 2 && news.len() < min_size - 1;
                proof {
                    assert(small <==> comp.len() < min_size);
                }
                if small {
                    base.set(i, j, replacement);
                    let mut m: usize = 0;
                    while m < news.len()
                        invariant
                            m <= news@.len(),
                            n == g0.len(),
                            nn == n as int,
                            base.wf(nn),
                            gpre.len() == nn,
                            forall|k: int|
                                0 <= k < news@.len() ==> in_bounds(
                                    nn,
                                    cell_int(#[trigger] news@[k]),
                                ),
                            in_bounds(nn, ac),
                            forall|c: (int, int)|
                                in_bounds(nn, c) ==> #[trigger] base@[c.0][c.1] == (if c == ac || (
                                exists|k: int|
                                    0 <= k < m && cell_int(#[trigger] news@[k]) == c) {
                                    replacement
                                } else {
                                    gpre[c.0][c.1]
                                }),
                        decreases news@.len() - m,
                    {
                        let ghost bpre2 = base@;
                        let cellm = news[m];
                        base.set(cellm.0, cellm.1, replacement);
                        proof {
                            assert forall|c: (int, int)| in_bounds(nn, c) implies #[trigger]
                                base@[c.0][c.1] == (if c == ac || (exists|k: int|
                                0 <= k < m + 1 && cell_int(#[trigger] news@[k]) == c) {
                                replacement
                            } else {
                                gpre[c.0][c.1]
                            }) by {
                                if c == cell_int(cellm) {
                                    assert(cell_int(news@[m as int]) == c);
                                } else {
                                    assert(base@[c.0][c.1] == bpre2[c.0][c.1]);
                                    if exists|k: int|
                                        0 <= k < m + 1 && cell_int(#[trigger] news@[k]) == c {
                                        let k = choose|k: int|
                                            0 <= k < m + 1 && cell_int(#[trigger] news@[k]) == c;
                                        assert(k < m);
                                    }
                                }
                            }
                        }
                        m += 1;
                    }
                }
                proof {
                    // restore the outer picture: every cell of this component is
                    // visited, finite, and rewritten exactly when it is small
                    assert forall|c: (int, int)|
                        in_bounds(nn, c) && mask_at(tm, c) && mask_at(visited@, c)
                            implies #[trigger] component(tm, nn, c).finite() by {
                        if connected(tm, nn, ac, c) {
                            lemma_component_eq(tm, nn, ac, c);
                        } else {
                            assert(mask_at(vpre, c));
                        }
                    }
                    assert forall|c: (int, int), d: (int, int)|
                        in_bounds(nn, c) && mask_at(visited@, c) && #[trigger] connected(
                            tm,
                            nn,
                            c,
                            d,
                        ) implies mask_at(visited@, d) by {
                        if mask_at(vpre, c) {
                            assert(mask_at(vpre, d));
                        } else {
                            assert(connected(tm, nn, ac, c));
                            lemma_connected_trans(tm, nn, ac, c, d);
                            assert(in_bounds(nn, d));
                        }
                    }
                    assert forall|c: (int, int)| in_bounds(nn, c) implies #[trigger]
                        base@[c.0][c.1] == (if mask_at(tm, c) && mask_at(visited@, c) && component(
                        tm,
                        nn,
                        c,
                    ).len() < min_size {
                        replacement
                    } else {
                        g0[c.0][c.1]
                    }) by {
                        if connected(tm, nn, ac, c) {
                            lemma_component_eq(tm, nn, ac, c);
                            assert(component(tm, nn, c).len() == comp.len());
                            assert(mask_at(tm, c) && mask_at(visited@, c));
                            assert(!mask_at(vpre, c) || c == ac);
                            assert(gpre[c.0][c.1] == g0[c.0][c.1]);
                            if small {
                                assert(comp.contains(c));
                                assert(newsg.to_set().insert(ac).contains(c));
                                if c != ac {
                                    assert(newsg.contains(c));
                                    let k = choose|k: int| 0 <= k < newsg.len() && newsg[k] == c;
                                    assert(cell_int(news@[k]) == c);
                                    assert(base@[c.0][c.1] == replacement);
                                }
                            }
                        } else {
                            assert(mask_at(visited@, c) <==> mask_at(vpre, c));
                            if small {
                                assert(c != ac);
                                if exists|k: int|
                                    0 <= k < news@.len() && cell_int(#[trigger] news@[k]) == c {
                                    let k = choose|k: int|
                                        0 <= k < news@.len() && cell_int(#[trigger] news@[k]) == c;
                                    assert(newsg[k] == c);
                                    assert(newsg.contains(c));
                                    assert(comp.contains(c));
                                }
                                assert(base@[c.0][c.1] == gpre[c.0][c.1]);
                            } else {
                                assert(base@[c.0][c.1] == gpre[c.0][c.1]);
                            }
                        }
                    }
                }
            }
            proof {
                assert forall|c: (int, int)|
                    in_bounds(nn, c) && row_major_lt(c.0, c.1, i as int, j + 1) && mask_at(tm, c)
                        implies mask_at(visited@, c) by {
                    if c == (i as int, j as int) {
                        assert(mask_at(allowed@, c));
                    }
                }
            }
            j += 1;
        }
        i += 1;
    }
    proof {
        assert forall|c: (int, int)|
            in_bounds(nn, c) && #[trigger] g0[c.0][c.1] == target implies component(
            tm,
            nn,
            c,
        ).finite() && base@[c.0][c.1] == (if component(tm, nn, c).len() < min_size {
            replacement
        } else {
            g0[c.0][c.1]
        }) by {
            assert(mask_at(tm, c));
            assert(mask_at(visited@, c));
        }
        assert forall|c: (int, int)|
            in_bounds(nn, c) && g0[c.0][c.1] != target implies #[trigger] base@[c.0][c.1]
            == g0[c.0][c.1] by {
            assert(!mask_at(tm, c));
        }
    }
}

/// In a grid whose rows all have length `m`, the cell total is the product.
pub proof fn lemma_total_cells_rows(g: Seq<Seq<bool>>, m: int)
    requires
        forall|i: int| 0 <= i < g.len() ==> (#[trigger] g[i]).len() == m,
    ensures
        total_cells(g) == g.len() * m,
    decreases g.len(),
{
    if g.len() == 0 {
    } else {
        lemma_total_cells_rows(g.drop_last(), m);
        assert((g.len() - 1) * m + m == g.len() * m) by (nonlinear_arith);
    }
}

proof fn lemma_row_count_full(r: Seq<bool>)
    requires
        forall|l: int| 0 <= l < r.len() ==> #[trigger] r[l],
    ensures
        row_count(r) == r.len(),
    decreases r.len(),
{
    if r.len() > 0 {
        lemma_row_count_full(r.drop_last());
    }
}

proof fn lemma_row_count_zero(r: Seq<bool>)
    requires
        forall|l: int| 0 <= l < r.len() ==> !(#[trigger] r[l]),
    ensures
        row_count(r) == 0,
    decreases r.len(),
{
    if r.len() > 0 {
        lemma_row_count_zero(r.drop_last());
    }
}

proof fn lemma_grid_count_all_true(g: Seq<Seq<bool>>, m: int)
    requires
        forall|i: int| 0 <= i < g.len() ==> (#[trigger] g[i]).len() == m,
        forall|i: int, j: int| 0 <= i < g.len() && 0 <= j < m ==> #[trigger] g[i][j],
    ensures
        grid_count(g) == g.len() * m,
    decreases g.len(),
{
    if g.len() > 0 {
        lemma_grid_count_all_true(g.drop_last(), m);
        lemma_row_count_full(g.last());
        assert((g.len() - 1) * m + m == g.len() * m) by (nonlinear_arith);
    }
}

proof fn lemma_grid_count_all_false(g: Seq<Seq<bool>>)
    requires
        forall|i: int, j: int|
            0 <= i < g.len() && 0 <= j < (#[trigger] g[i]).len() ==> !(#[trigger] g[i][j]),
    ensures
        grid_count(g) == 0,
    decreases g.len(),
{
    if g.len() > 0 {
        lemma_grid_count_all_false(g.drop_last());
        lemma_row_count_zero(g.last());
    }
}

/// On a grid where every cell is open, one straight staircase of moves
/// links the seed to any other cell.
proof fn lemma_straight_reach(
    allowed: Seq<Seq<bool>>,
    avoid: Seq<Seq<bool>>,
    n: int,
    s: (int, int),
    c: (int, int),
)
    requires
        in_bounds(n, s),
        in_bounds(n, c),
        c != s,
        forall|d: (int, int)| in_bounds(n, d) ==> mask_at(allowed, d),
        forall|d: (int, int)| in_bounds(n, d) && d != s ==> !mask_at(avoid, d),
    ensures
        fill_reaches(seq![s], allowed, avoid, n, c),
    decreases (if c.0 >= s.0 {
        c.0 - s.0
    } else {
        s.0 - c.0
    }) + (if c.1 >= s.1 {
        c.1 - s.1
    } else {
        s.1 - c.1
    }),
{
    let seeds: Seq<(int, int)> = seq![s];
    assert(seeds[0] == s);
    let d: (int, int) = if c.1 > s.1 {
        (c.0, c.1 - 1)
    } else if c.1 < s.1 {
        (c.0, c.1 + 1)
    } else if c.0 > s.0 {
        (c.0 - 1, c.1)
    } else {
        (c.0 + 1, c.1)
    };
    assert(adj4(d, c));
    assert(in_bounds(n, d));
    if d == s {
        let p: Seq<(int, int)> = seq![s, c];
        assert(seeds.contains(p[0]));
        assert(fill_path(seeds, allowed, avoid, n, p) && p.last() == c);
        assert(fill_reaches(seeds, allowed, avoid, n, c));
    } else {
        lemma_straight_reach(allowed, avoid, n, s, d);
        lemma_fill_reaches_step(seeds, allowed, avoid, n, d, c);
    }
}

/// Measuring a component on a fully connected grid: when the predicate
/// admits every cell and nothing was visited yet, the fill from any seed
/// covers the whole grid, so the measured size is exactly N*N. The
/// hypotheses are what [`measure_component_size`] guarantees about its
/// masks; its result is the count difference bounded here.
pub proof fn lemma_component_size_full_grid(
    allowed: Seq<Seq<bool>>,
    v0: Seq<Seq<bool>>,
    v1: Seq<Seq<bool>>,
    n: int,
    start: (int, int),
)
    requires
        grid_wf(allowed, n),
        grid_wf(v0, n),
        grid_wf(v1, n),
        n >= 1,
        in_bounds(n, start),
        forall|d: (int, int)| in_bounds(n, d) ==> mask_at(allowed, d),
        forall|d: (int, int)| in_bounds(n, d) ==> !mask_at(v0, d),
        ({
            let m1 = v0.update(start.0, v0[start.0].update(start.1, true));
            forall|c: (int, int)|
                in_bounds(n, c) ==> (mask_at(v1, c) <==> mask_at(m1, c) || fill_reaches(
                    seq![start],
                    allowed,
                    m1,
                    n,
                    c,
                ))
        }),
    ensures
        grid_count(v1) - grid_count(v0) == n * n,
{
    let m1 = v0.update(start.0, v0[start.0].update(start.1, true));
    assert forall|c: (int, int)| in_bounds(n, c) implies mask_at(v1, c) by {
        if c == start {
            assert(mask_at(m1, c));
        } else {
            assert forall|d: (int, int)| in_bounds(n, d) && d != start implies !mask_at(
                m1,
                d,
            ) by {}
            lemma_straight_reach(allowed, m1, n, start, c);
        }
    }
    assert forall|i: int, j: int| 0 <= i < v1.len() && 0 <= j < n implies #[trigger] v1[i][j] by {
        assert(mask_at(v1, (i, j)));
    }
    lemma_grid_count_all_true(v1, n);
    assert forall|i: int, j: int|
        0 <= i < v0.len() && 0 <= j < (#[trigger] v0[i]).len() implies !(#[trigger] v0[i][j]) by {
        assert(!mask_at(v0, (i, j)));
    }
    lemma_grid_count_all_false(v0);
}

} // verus!
