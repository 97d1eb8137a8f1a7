//! Locating a year block, a month row and the category columns of a worksheet.
//!
//! The sheet holds one block per year in the year/month column: the year as a
//! number, the twelve months below it in calendar order, then two blank rows.
//! Blocks follow one another from the starting row, fifteen rows apart. The
//! categories of a year stand on the year's row, right of the year/month column.
use vstd::prelude::*;
use crate::grid::{CellValue, CellView, Grid, cell_at};
use crate::text::same_text;

verus! {

/// Column that holds the years and the month names.
pub const YEAR_MONTH_COLUMN: usize = 1;

/// Row of the first year block.
pub const STARTING_ROW: usize = 1;

/// Rows per year block: the year, twelve months, two blank rows.
pub const BLOCK_ROWS: usize = 15;

/// The twelve months in calendar order.
#[derive(Clone, Copy, Debug, PartialEq, Eq, Structural)]
pub enum Month {
    January,
    February,
    March,
    April,
    May,
    June,
    July,
    August,
    September,
    October,
    November,
    December,
}

/// The month named `s` (English, capitalised), if any.
pub open spec fn month_named(s: Seq<char>) -> Option<Month> {
    if s == "January"@ {
        Some(Month::January)
    } else if s == "February"@ {
        Some(Month::February)
    } else if s == "March"@ {
        Some(Month::March)
    } else if s == "April"@ {
        Some(Month::April)
    } else if s == "May"@ {
        Some(Month::May)
    } else if s == "June"@ {
        Some(Month::June)
    } else if s == "July"@ {
        Some(Month::July)
    } else if s == "August"@ {
        Some(Month::August)
    } else if s == "September"@ {
        Some(Month::September)
    } else if s == "October"@ {
        Some(Month::October)
    } else if s == "November"@ {
        Some(Month::November)
    } else if s == "December"@ {
        Some(Month::December)
    } else {
        None
    }
}

/// Position of a month in the year, January being 1.
pub open spec fn month_number(m: Month) -> nat {
    match m {
        Month::January => 1,
        Month::February => 2,
        Month::March => 3,
        Month::April => 4,
        Month::May => 5,
        Month::June => 6,
        Month::July => 7,
        Month::August => 8,
        Month::September => 9,
        Month::October => 10,
        Month::November => 11,
        Month::December => 12,
    }
}

impl Month {
    /// The month called `name`, or `None` for any other string.
    pub fn from_name(name: &str) -> (r: Option<Month>)
        ensures
            r == month_named(name@),
    {
        if same_text(name, "January") {
            Some(Month::January)
        } else if same_text(name, "February") {
            Some(Month::February)
        } else if same_text(name, "March") {
            Some(Month::March)
        } else if same_text(name, "April") {
            Some(Month::April)
        } else if same_text(name, "May") {
            Some(Month::May)
        } else if same_text(name, "June") {
            Some(Month::June)
        } else if same_text(name, "July") {
            Some(Month::July)
        } else if same_text(name, "August") {
            Some(Month::August)
        } else if same_text(name, "September") {
            Some(Month::September)
        } else if same_text(name, "October") {
            Some(Month::October)
        } else if same_text(name, "November") {
            Some(Month::November)
        } else if same_text(name, "December") {
            Some(Month::December)
        } else {
            None
        }
    }

    /// Rows between the year row of a block and this month's row.
    pub fn offset(&self) -> (r: usize)
        ensures
            r as nat == month_number(*self),
            1 <= r <= 12,
    {
        match self {
            Month::January => 1,
            Month::February => 2,
            Month::March => 3,
            Month::April => 4,
            Month::May => 5,
            Month::June => 6,
            Month::July => 7,
            Month::August => 8,
            Month::September => 9,
            Month::October => 10,
            Month::November => 11,
            Month::December => 12,
        }
    }
}

/// The row of `month` in the block whose year row is `year_row`, when the
/// month is known and the row is representable.
pub open spec fn month_row_of(year_row: int, month: Seq<char>) -> Option<int> {
    match month_named(month) {
        Some(m) => if year_row + month_number(m) <= usize::MAX {
            Some(year_row + month_number(m))
        } else {
            None
        },
        None => None,
    }
}

/// Row of `month_to_find` inside the year block that starts at `year_row`.
pub fn xls_find_month_entry_row_number(year_row: usize, month_to_find: String) -> (r: Option<
    usize,
>)
    ensures
        r is None <==> month_row_of(year_row as int, month_to_find@) is None,
        r matches Some(v) ==> month_row_of(year_row as int, month_to_find@) == Some(v as int),
{
    match Month::from_name(month_to_find.as_str()) {
        Some(m) => {
            let k = m.offset();
            if year_row <= usize::MAX - k {
                Some(year_row + k)
            } else {
                None
            }
        },
        None => None,
    }
}

/// The whole part of a number held in hundredths, rounded toward zero.
pub open spec fn whole_part(hundredths: int) -> int {
    if hundredths >= 0 {
        hundredths / 100
    } else {
        -((-hundredths) / 100)
    }
}

/// The first year row at or after `row` (stepping one block at a time) whose
/// cell in `column` holds `year`. The scan gives up on a cell that is neither a
/// number nor absent, and at the end of the grid.
pub open spec fn year_scan(g: Seq<Seq<CellView>>, column: int, year: int, row: int) -> Option<int>
    decreases g.len() + BLOCK_ROWS - row,
{
    if row < 0 || row >= g.len() {
        None
    } else {
        match cell_at(g, row, column) {
            None => year_scan(g, column, year, row + BLOCK_ROWS),
            Some(CellView::Number(v)) => if whole_part(v) == year {
                Some(row)
            } else {
                year_scan(g, column, year, row + BLOCK_ROWS)
            },
            Some(_) => None,
        }
    }
}

proof fn lemma_year_scan_bounded(g: Seq<Seq<CellView>>, column: int, year: int, row: int)
    ensures
        year_scan(g, column, year, row) matches Some(v) ==> row <= v < g.len(),
    decreases g.len() + BLOCK_ROWS - row,
{
    if 0 <= row < g.len() {
        lemma_year_scan_bounded(g, column, year, row + BLOCK_ROWS);
    }
}

/// The row of the year block for `year`, searched from the starting row.
pub open spec fn year_row_of(g: Seq<Seq<CellView>>, column: int, year: int) -> Option<int> {
    year_scan(g, column, year, STARTING_ROW as int)
}

/// Row of the block whose year cell in `column` holds `year_to_find`.
pub fn xls_find_year_entry_row_number(column: usize, year_to_find: i64, grid: &Grid) -> (r: Option<
    usize,
>)
    ensures
        r is None <==> year_row_of(grid@, column as int, year_to_find as int) is None,
        r matches Some(v) ==> year_row_of(grid@, column as int, year_to_find as int) == Some(
            v as int,
        ) && v < grid@.len(),
{
    proof {
        lemma_year_scan_bounded(grid@, column as int, year_to_find as int, STARTING_ROW as int);
    }
    let height = grid.height();
    let mut row: usize = STARTING_ROW;
    while row < height
        invariant
            height == grid@.len(),
            STARTING_ROW <= row,
            year_row_of(grid@, column as int, year_to_find as int) == year_scan(
                grid@,
                column as int,
                year_to_find as int,
                row as int,
            ),
        decreases height + BLOCK_ROWS - row,
    {
        match grid.get(row, column) {
            Some(CellValue::Number(v)) => {
                let whole: i128 = if *v >= 0 {
                    *v / 100
                } else {
                    let m: u128 = (-(*v + 1)) as u128 + 1;
                    -((m / 100) as i128)
                };
                if whole == year_to_find as i128 {
                    return Some(row);
                }
            },
            Some(_) => {
                return None;
            },
            None => {},
        }
        if row > usize::MAX - BLOCK_ROWS {
            assert(year_scan(grid@, column as int, year_to_find as int, row + BLOCK_ROWS) is None);
            return None;
        }
        row = row + BLOCK_ROWS;
    }
    None
}

/// The characters of each string, in order.
pub open spec fn strings_view(v: Seq<String>) -> Seq<Seq<char>> {
    Seq::new(v.len(), |i: int| v[i]@)
}

/// The text cells of `row` from column `col` rightwards, up to the first empty
/// cell or the end of the row; `None` if a number stands before that point.
pub open spec fn category_scan(g: Seq<Seq<CellView>>, row: int, col: int) -> Option<Seq<Seq<char>>>
    decreases (if 0 <= row < g.len() { g[row].len() } else { 0 }) + 1 - col,
{
    if col < 0 {
        None
    } else {
        match cell_at(g, row, col) {
            Some(CellView::Text(s)) => match category_scan(g, row, col + 1) {
                Some(rest) => Some(seq![s] + rest),
                None => None,
            },
            Some(CellView::Number(_)) => None,
            _ => Some(Seq::empty()),
        }
    }
}

/// The categories of the year whose row is `row`: the text cells right of the
/// year/month column, read up to the first empty cell; `None` where that list
/// is empty or holds a number.
pub open spec fn categories_of(g: Seq<Seq<CellView>>, row: int) -> Option<Seq<Seq<char>>> {
    match category_scan(g, row, YEAR_MONTH_COLUMN + 1) {
        Some(l) => if l.len() > 0 {
            Some(l)
        } else {
            None
        },
        None => None,
    }
}

/// The ordered category names on the header row `row` of a year block.
pub fn xls_categories_to_vec(row: usize, grid: &Grid) -> (r: Option<Vec<String>>)
    ensures
        match r {
            Some(v) => categories_of(grid@, row as int) == Some(strings_view(v@))
                && YEAR_MONTH_COLUMN + 1 + v@.len() <= usize::MAX,
            None => categories_of(grid@, row as int) is None,
        },
{
    let mut categories: Vec<String> = Vec::new();
    let mut col: usize = YEAR_MONTH_COLUMN + 1;
    loop
        invariant
            YEAR_MONTH_COLUMN + 1 <= col,
            col == YEAR_MONTH_COLUMN + 1 + categories@.len(),
            category_scan(grid@, row as int, YEAR_MONTH_COLUMN + 1) == match category_scan(
                grid@,
                row as int,
                col as int,
            ) {
                Some(rest) => Some(strings_view(categories@) + rest),
                None => None,
            },
        ensures
            category_scan(grid@, row as int, YEAR_MONTH_COLUMN + 1) == Some(
                strings_view(categories@),
            ),
        decreases (if row < grid@.len() { grid@[row as int].len() } else { 0 }) + 1 - col,
    {
        let ghost before = categories@;
        match grid.get(row, col) {
            Some(CellValue::Text(s)) => {
                categories.push(s.clone());
                assert(strings_view(categories@) =~= strings_view(before) + seq![s@]);
                let row_len = grid.rows[row].len();
                assert(col < row_len);
                col = col + 1;
            },
            Some(CellValue::Number(_)) => {
                return None;
            },
            _ => {
                assert(strings_view(categories@) + Seq::<Seq<char>>::empty() =~= strings_view(categories@));
                break;
            },
        }
    }
    if categories.len() > 0 {
        Some(categories)
    } else {
        None
    }
}

/// A month's row is its position in the year below the year row: January one
/// row down, December twelve; any other string has no row.
pub proof fn law_month_rows(year_row: int, other: Seq<char>)
    requires
        0 <= year_row <= usize::MAX - 12,
        month_named(other) is None,
    ensures
        month_row_of(year_row, "January"@) == Some(year_row + 1),
        month_row_of(year_row, "December"@) == Some(year_row + 12),
        month_row_of(year_row, other) is None,
{
    reveal_strlit("January");
    reveal_strlit("February");
    reveal_strlit("March");
    reveal_strlit("April");
    reveal_strlit("May");
    reveal_strlit("June");
    reveal_strlit("July");
    reveal_strlit("August");
    reveal_strlit("September");
    reveal_strlit("October");
    reveal_strlit("November");
    reveal_strlit("December");
    assert("December"@[0] != "January"@[0]);
    assert("December"@[0] != "February"@[0]);
    assert("December"@[0] != "March"@[0]);
    assert("December"@[0] != "April"@[0]);
    assert("December"@[0] != "May"@[0]);
    assert("December"@[0] != "June"@[0]);
    assert("December"@[0] != "July"@[0]);
    assert("December"@[0] != "August"@[0]);
    assert("December"@[0] != "September"@[0]);
    assert("December"@[0] != "October"@[0]);
    assert("December"@[0] != "November"@[0]);
    assert(month_named("December"@) == Some(Month::December));
}

/// A year that no number cell of the column holds is not found, however many
/// blocks the scan visits.
pub proof fn law_absent_year_not_found(g: Seq<Seq<CellView>>, column: int, year: int)
    requires
        forall|r: int|
            #[trigger] cell_at(g, r, column) matches Some(CellView::Number(v)) ==> whole_part(v)
                != year,
    ensures
        year_row_of(g, column, year) is None,
{
    lemma_absent_year_scan(g, column, year, STARTING_ROW as int);
}

proof fn lemma_absent_year_scan(g: Seq<Seq<CellView>>, column: int, year: int, row: int)
    requires
        forall|r: int|
            #[trigger] cell_at(g, r, column) matches Some(CellView::Number(v)) ==> whole_part(v)
                != year,
    ensures
        year_scan(g, column, year, row) is None,
    decreases g.len() + BLOCK_ROWS - row,
{
    if 0 <= row < g.len() {
        lemma_absent_year_scan(g, column, year, row + BLOCK_ROWS);
        if let Some(CellView::Number(v)) = cell_at(g, row, column) {
            assert(whole_part(v) != year);
        }
    }
}

} // verus!
