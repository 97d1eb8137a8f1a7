//! The in-memory view of one worksheet: a row-major array of typed cells.
use vstd::prelude::*;

verus! {

/// A cell as the addressing and merge logic sees it.
///
/// Numbers are held in hundredths (a cell showing `202.7` holds `20270`),
/// which is the precision of every amount the ledger produces.
#[derive(Debug)]
pub enum CellValue {
    Empty,
    Text(String),
    Number(i128),
}

/// The mathematical value of a cell.
pub enum CellView {
    Empty,
    Text(Seq<char>),
    Number(int),
}

impl View for CellValue {
    type V = CellView;

    open spec fn view(&self) -> CellView {
        match self {
            CellValue::Empty => CellView::Empty,
            CellValue::Text(s) => CellView::Text(s@),
            CellValue::Number(n) => CellView::Number(*n as int),
        }
    }
}

impl CellValue {
    /// A copy of the cell with the same value.
    pub fn duplicate(&self) -> (r: CellValue)
        ensures
            r@ == self@,
    {
        match self {
            CellValue::Empty => CellValue::Empty,
            CellValue::Text(s) => CellValue::Text(s.clone()),
            CellValue::Number(n) => CellValue::Number(*n),
        }
    }
}

/// A worksheet: `rows[r][c]` is the cell at row `r`, column `c` (both from 0).
/// Rows may differ in length; a position past the end of its row holds no cell.
pub struct Grid {
    pub rows: Vec<Vec<CellValue>>,
}

/// The values of a row's cells.
pub open spec fn row_view(row: Seq<CellValue>) -> Seq<CellView> {
    Seq::new(row.len(), |c: int| row[c]@)
}

impl View for Grid {
    type V = Seq<Seq<CellView>>;

    open spec fn view(&self) -> Seq<Seq<CellView>> {
        Seq::new(self.rows@.len(), |r: int| row_view(self.rows@[r]@))
    }
}

/// The cell at `(row, col)` of a grid view, if the grid has one there.
pub open spec fn cell_at(g: Seq<Seq<CellView>>, row: int, col: int) -> Option<CellView> {
    if 0 <= row < g.len() && 0 <= col < g[row].len() {
        Some(g[row][col])
    } else {
        None
    }
}

impl Grid {
    /// A grid with no rows.
    pub fn new() -> (r: Grid)
        ensures
            r@.len() == 0,
    {
        Grid { rows: Vec::new() }
    }

    /// Number of rows.
    pub fn height(&self) -> (r: usize)
        ensures
            r == self@.len(),
    {
        self.rows.len()
    }

    /// The cell at `(row, col)`, or `None` outside the grid.
    pub fn get(&self, row: usize, col: usize) -> (r: Option<&CellValue>)
        ensures
            match r {
                Some(c) => cell_at(self@, row as int, col as int) == Some(c@),
                None => cell_at(self@, row as int, col as int) is None,
            },
    {
        if row < self.rows.len() && col < self.rows[row].len() {
            Some(&self.rows[row][col])
        } else {
            None
        }
    }
}

} // verus!
