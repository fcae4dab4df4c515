//! A wave-function-collapse cell: the tile options still open for one grid
//! position, and whether the position has collapsed to a single choice.

use vstd::prelude::*;

verus! {

/// One superposed grid position.
#[derive(Clone)]
pub struct Cell {
    pub options: Vec<usize>,
    pub collapsed: bool,
}

impl Cell {
    /// A fresh position with the given options, not yet collapsed.
    pub fn new(options: Vec<usize>) -> (r: Cell)
        ensures
            r.options@ == options@,
            !r.collapsed,
    {
        Cell { options, collapsed: false }
    }
}

} // verus!
