//! Cell values and the square grids the pipeline works on.
//!
//! A cell is either still an unclassified elevation sample or carries one of
//! the discrete codes written by the classifier, the settlement placer or the
//! road builder. Elevation is kept in fixed point: a raw sample nominally in
//! `[0, 1]` is stored as thousandths, so the deep-water threshold `0.3`
//! becomes `300`.

use vstd::prelude::*;

verus! {

/// The one caller-visible error: the three input fields and the base grid
/// must share one square dimension, checked before any mutation.
#[derive(Clone, Copy, Debug, PartialEq, Eq, Structural)]
pub enum GridError {
    DimensionMismatch,
}

/// A biome code written by the classifier.
#[derive(Clone, Copy, Debug, PartialEq, Eq, Structural)]
pub enum BiomeKind {
    DeepWater,
    Water,
    Sand,
    Mountain,
    MountainSnow,
    DesertHot,
    Glacial,
    Marsh,
}

/// A settlement code stamped by the placer.
#[derive(Clone, Copy, Debug, PartialEq, Eq, Structural)]
pub enum SettlementKind {
    Village,
    City,
}

/// One cell of the classified grid. Unclassified cells keep their raw
/// elevation in thousandths; classified cells carry a discrete code.
#[derive(Clone, Copy, Debug, PartialEq, Eq, Structural)]
pub enum Terrain {
    Unclassified(u32),
    Biome(BiomeKind),
    Settlement(SettlementKind),
    Route,
}

/// A square grid of raw scalar samples (altitude, temperature or humidity),
/// in thousandths.
pub struct ScalarGrid {
    pub cells: Vec<Vec<u32>>,
}

impl View for ScalarGrid {
    type V = Seq<Seq<u32>>;

    open spec fn view(&self) -> Seq<Seq<u32>> {
        self.cells@.map_values(|r: Vec<u32>| r@)
    }
}

/// A square grid: `n` rows of `n` cells each.
pub open spec fn grid_wf<T>(g: Seq<Seq<T>>, n: int) -> bool {
    &&& g.len() == n
    &&& forall|i: int| 0 <= i < n ==> (#[trigger] g[i]).len() == n
}

/// Row-major order: cell `(r, c)` comes strictly before cell `(i, j)` in a
/// full-grid scan.
pub open spec fn row_major_lt(r: int, c: int, i: int, j: int) -> bool {
    r < i || (r == i && c < j)
}

impl ScalarGrid {
    pub open spec fn wf(&self, n: int) -> bool {
        grid_wf(self@, n)
    }

    /// Builds a grid from rows, rejecting inputs that are not square.
    pub fn from_rows(cells: Vec<Vec<u32>>) -> (r: Option<ScalarGrid>)
        ensures
            match r {
                Some(g) => g.wf(cells@.len() as int) && g@ == cells@.map_values(|r: Vec<u32>| r@),
                None => exists|i: int|
                    0 <= i < cells@.len() && (#[trigger] cells@[i])@.len() != cells@.len(),
            },
    {
        let n = cells.len();
        let mut i: usize = 0;
        while i < n
            invariant
                i <= n,
                n == cells@.len(),
                forall|k: int| 0 <= k < i ==> (#[trigger] cells@[k])@.len() == n,
            decreases n - i,
        {
            if cells[i].len() != n {
                return None;
            }
            i += 1;
        }
        Some(ScalarGrid { cells })
    }

    pub fn side(&self) -> (r: usize)
        ensures
            r == self@.len(),
    {
        self.cells.len()
    }

    pub fn at(&self, i: usize, j: usize) -> (r: u32)
        requires
            self.wf(self@.len() as int),
            i < self@.len(),
            j < self@.len(),
        ensures
            r == self@[i as int][j as int],
    {
        proof {
            assert(self@[i as int] == self.cells@[i as int]@);
        }
        self.cells[i][j]
    }
}

/// The evolving classified grid: raw elevations overlaid with biome,
/// settlement and route codes.
pub struct TerrainGrid {
    pub cells: Vec<Vec<Terrain>>,
}

impl View for TerrainGrid {
    type V = Seq<Seq<Terrain>>;

    open spec fn view(&self) -> Seq<Seq<Terrain>> {
        self.cells@.map_values(|r: Vec<Terrain>| r@)
    }
}

impl TerrainGrid {
    pub open spec fn wf(&self, n: int) -> bool {
        grid_wf(self@, n)
    }

    /// Starts a classification grid from a raw scalar field: every cell is
    /// unclassified and keeps its sample.
    pub fn from_scalar(field: &ScalarGrid) -> (r: TerrainGrid)
        requires
            field.wf(field@.len() as int),
        ensures
            r.wf(field@.len() as int),
            forall|i: int, j: int|
                0 <= i < field@.len() && 0 <= j < field@.len() ==> r@[i][j]
                    == Terrain::Unclassified(#[trigger] field@[i][j]),
    {
        let n = field.side();
        let mut cells: Vec<Vec<Terrain>> = Vec::new();
        let mut i: usize = 0;
        while i < n
            invariant
                i <= n,
                n == field@.len(),
                field.wf(n as int),
                cells@.len() == i,
                forall|k: int| 0 <= k < i ==> (#[trigger] cells@[k])@.len() == n,
                forall|k: int, j: int|
                    0 <= k < i && 0 <= j < n ==> cells@[k]@[j] == Terrain::Unclassified(
                        #[trigger] field@[k][j],
                    ),
            decreases n - i,
        {
            let mut row: Vec<Terrain> = Vec::new();
            let mut j: usize = 0;
            while j < n
                invariant
                    j <= n,
                    i < n,
                    n == field@.len(),
                    field.wf(n as int),
                    row@.len() == j,
                    forall|l: int|
                        0 <= l < j ==> row@[l] == Terrain::Unclassified(
                            #[trigger] field@[i as int][l],
                        ),
                decreases n - j,
            {
                row.push(Terrain::Unclassified(field.at(i, j)));
                j += 1;
            }
            cells.push(row);
            i += 1;
        }
        TerrainGrid { cells }
    }

    /// Builds a grid from rows, rejecting inputs that are not square.
    pub fn from_rows(cells: Vec<Vec<Terrain>>) -> (r: Option<TerrainGrid>)
        ensures
            match r {
                Some(g) => g.wf(cells@.len() as int) && g@ == cells@.map_values(
                    |r: Vec<Terrain>| r@,
                ),
                None => exists|i: int|
                    0 <= i < cells@.len() && (#[trigger] cells@[i])@.len() != cells@.len(),
            },
    {
        let n = cells.len();
        let mut i: usize = 0;
        while i < n
            invariant
                i <= n,
                n == cells@.len(),
                forall|k: int| 0 <= k < i ==> (#[trigger] cells@[k])@.len() == n,
            decreases n - i,
        {
            if cells[i].len() != n {
                return None;
            }
            i += 1;
        }
        Some(TerrainGrid { cells })
    }

    pub fn side(&self) -> (r: usize)
        ensures
            r == self@.len(),
    {
        self.cells.len()
    }

    pub fn at(&self, i: usize, j: usize) -> (r: Terrain)
        requires
            self.wf(self@.len() as int),
            i < self@.len(),
            j < self@.len(),
        ensures
            r == self@[i as int][j as int],
    {
        proof {
            assert(self@[i as int] == self.cells@[i as int]@);
        }
        self.cells[i][j]
    }

    pub fn set(&mut self, i: usize, j: usize, v: Terrain)
        requires
            old(self).wf(old(self)@.len() as int),
            i < old(self)@.len(),
            j < old(self)@.len(),
        ensures
            final(self).wf(old(self)@.len() as int),
            final(self)@ == old(self)@.update(
                i as int,
                old(self)@[i as int].update(j as int, v),
            ),
    {
        proof {
            assert(self@[i as int] == self.cells@[i as int]@);
        }
        let row: &mut Vec<Terrain> = &mut self.cells[i];
        row.set(j, v);
        proof {
            assert(self@ =~= old(self)@.update(
                i as int,
                old(self)@[i as int].update(j as int, v),
            ));
        }
    }
}

} // verus!
