//! Placing a monthly record in a worksheet and merging the result into it.
//!
//! The record's amounts become a delta: number cells at the record's month row,
//! one per category column that the year's header names. The merged sheet is
//! the baseline with the delta laid over it.
use vstd::prelude::*;
use crate::address::{
    YEAR_MONTH_COLUMN, categories_of, month_row_of, strings_view, xls_categories_to_vec,
    xls_find_month_entry_row_number, xls_find_year_entry_row_number, year_row_of,
};
use crate::grid::{CellValue, CellView, Grid, cell_at, row_view};
use crate::ledger::{Expense, MonthExpenses, expenses_view};
use crate::text::same_text;

verus! {

/// Which lookup in the baseline failed.
#[derive(Debug, PartialEq, Eq, Structural, Clone, Copy)]
pub enum AddressError {
    /// No year block holds the record's year.
    YearNotFound,
    /// The record's month is not one of the twelve month names.
    UnknownMonth,
    /// The year's header row names no category, or holds a number among them.
    NoCategories,
}

/// A number to be written at `(row, col)`, in hundredths.
#[derive(Debug, PartialEq, Eq, Structural, Clone, Copy)]
pub struct CellWrite {
    pub row: usize,
    pub col: usize,
    pub hundredths: i128,
}

/// The writes as `(row, column, hundredths)` triples.
pub open spec fn writes_view(w: Seq<CellWrite>) -> Seq<(int, int, int)> {
    Seq::new(w.len(), |i: int| (w[i].row as int, w[i].col as int, w[i].hundredths as int))
}

/// The total that `totals` gives category `c`: the first entry for it.
pub open spec fn total_for(totals: Seq<(Seq<char>, int)>, c: Seq<char>) -> Option<int>
    decreases totals.len(),
{
    if totals.len() == 0 {
        None
    } else if totals[0].0 == c {
        Some(totals[0].1)
    } else {
        total_for(totals.drop_first(), c)
    }
}

/// The cells written for `cats`, the categories of the header left to right:
/// on row `row`, each category that has a total gets it in its own column.
pub open spec fn delta_for(cats: Seq<Seq<char>>, totals: Seq<(Seq<char>, int)>, row: int) -> Seq<
    (int, int, int),
>
    decreases cats.len(),
{
    if cats.len() == 0 {
        Seq::empty()
    } else {
        let prev = delta_for(cats.drop_last(), totals, row);
        match total_for(totals, cats.last()) {
            Some(v) => prev.push((row, YEAR_MONTH_COLUMN + cats.len(), v)),
            None => prev,
        }
    }
}

/// The delta for a record of `year`, `month` and `totals` against the sheet
/// `g`, or the lookup that fails.
pub open spec fn delta_of(
    year: int,
    month: Seq<char>,
    totals: Seq<(Seq<char>, int)>,
    g: Seq<Seq<CellView>>,
) -> Result<Seq<(int, int, int)>, AddressError> {
    match year_row_of(g, YEAR_MONTH_COLUMN as int, year) {
        None => Err(AddressError::YearNotFound),
        Some(yr) => match month_row_of(yr, month) {
            None => Err(AddressError::UnknownMonth),
            Some(mr) => match categories_of(g, yr) {
                None => Err(AddressError::NoCategories),
                Some(cats) => Ok(delta_for(cats, totals, mr)),
            },
        },
    }
}

/// The total that the record gives `category`, if any.
fn lookup_total(data: &Vec<Expense>, category: &String) -> (r: Option<i128>)
    ensures
        r == match total_for(expenses_view(data@), category@) {
            Some(v) => Some(v as i128),
            None => None::<i128>,
        },
        r matches Some(v) ==> total_for(expenses_view(data@), category@) == Some(v as int),
{
    let mut i: usize = 0;
    assert(expenses_view(data@).subrange(0, data@.len() as int) =~= expenses_view(data@));
    while i < data.len()
        invariant
            i <= data@.len(),
            total_for(expenses_view(data@), category@) == total_for(
                expenses_view(data@).subrange(i as int, data@.len() as int),
                category@,
            ),
        decreases data@.len() - i,
    {
        let ghost tail = expenses_view(data@).subrange(i as int, data@.len() as int);
        assert(tail.drop_first() =~= expenses_view(data@).subrange(i + 1, data@.len() as int));
        if same_text(data[i].category.as_str(), category.as_str()) {
            return Some(data[i].hundredths);
        }
        i = i + 1;
    }
    None
}

/// The cells that place record `me` in the sheet `baseline`: for each category
/// of the record's year that the record has a total for, that total at the
/// record's month row and the category's column. Categories that the header
/// lacks are left out.
pub fn xls_insert_monthly_expense_entry_in_a_new_workbook(me: &MonthExpenses, baseline: &Grid) -> (r:
    Result<Vec<CellWrite>, AddressError>)
    ensures
        match r {
            Ok(w) => delta_of(me@.year, me@.month, me@.totals, baseline@) == Ok::<
                Seq<(int, int, int)>,
                AddressError,
            >(writes_view(w@)),
            Err(e) => delta_of(me@.year, me@.month, me@.totals, baseline@) == Err::<
                Seq<(int, int, int)>,
                AddressError,
            >(e),
        },
{
    let year_row = match xls_find_year_entry_row_number(YEAR_MONTH_COLUMN, me.year, baseline) {
        Some(r) => r,
        None => {
            return Err(AddressError::YearNotFound);
        },
    };
    let month_row = match xls_find_month_entry_row_number(year_row, me.month.clone()) {
        Some(r) => r,
        None => {
            return Err(AddressError::UnknownMonth);
        },
    };
    let categories = match xls_categories_to_vec(year_row, baseline) {
        Some(c) => c,
        None => {
            return Err(AddressError::NoCategories);
        },
    };
    let ghost cats = strings_view(categories@);
    let mut writes: Vec<CellWrite> = Vec::new();
    let mut k: usize = 0;
    while k < categories.len()
        invariant
            k <= categories@.len(),
            YEAR_MONTH_COLUMN + 1 + categories@.len() <= usize::MAX,
            cats == strings_view(categories@),
            writes_view(writes@) == delta_for(cats.subrange(0, k as int), me@.totals, month_row as int),
        decreases categories@.len() - k,
    {
        let ghost before = writes@;
        assert(cats.subrange(0, k + 1).drop_last() =~= cats.subrange(0, k as int));
        match lookup_total(&me.expenses_data, &categories[k]) {
            Some(v) => {
                writes.push(CellWrite { row: month_row, col: YEAR_MONTH_COLUMN + 1 + k, hundredths: v });
                assert(writes_view(writes@) =~= writes_view(before).push(
                    (month_row as int, YEAR_MONTH_COLUMN + 1 + k, v as int),
                ));
            },
            None => {},
        }
        k = k + 1;
    }
    assert(cats.subrange(0, k as int) =~= cats);
    Ok(writes)
}

/// Number of cells in row `r` of `g` (none outside the grid).
pub open spec fn row_len(g: Seq<Seq<CellView>>, r: int) -> int {
    if 0 <= r < g.len() {
        g[r].len() as int
    } else {
        0
    }
}

/// The larger of `a` and `b`.
pub open spec fn max(a: int, b: int) -> int {
    if a >= b {
        a
    } else {
        b
    }
}

/// The cell at `(r, c)` once `top` is laid over `base`: a non-empty cell of
/// `top` wins, else the cell of `base`, else an empty cell.
pub open spec fn overlay_cell(base: Seq<Seq<CellView>>, top: Seq<Seq<CellView>>, r: int, c: int) -> CellView {
    match cell_at(top, r, c) {
        Some(CellView::Empty) | None => match cell_at(base, r, c) {
            Some(x) => x,
            None => CellView::Empty,
        },
        Some(x) => x,
    }
}

/// `top` laid over `base`: the grid is as tall as the taller, each row as long
/// as the longer of the two.
pub open spec fn overlay(base: Seq<Seq<CellView>>, top: Seq<Seq<CellView>>) -> Seq<Seq<CellView>> {
    Seq::new(
        max(base.len() as int, top.len() as int) as nat,
        |r: int|
            Seq::new(
                max(row_len(base, r), row_len(top, r)) as nat,
                |c: int| overlay_cell(base, top, r, c),
            ),
    )
}

fn overlay_at(base: &Grid, top: &Grid, r: usize, c: usize) -> (x: CellValue)
    ensures
        x@ == overlay_cell(base@, top@, r as int, c as int),
{
    match top.get(r, c) {
        Some(CellValue::Empty) | None => match base.get(r, c) {
            Some(v) => v.duplicate(),
            None => CellValue::Empty,
        },
        Some(v) => v.duplicate(),
    }
}

fn row_length(g: &Grid, r: usize) -> (n: usize)
    ensures
        n == row_len(g@, r as int),
{
    if r < g.rows.len() {
        g.rows[r].len()
    } else {
        0
    }
}

/// The sheet `delta` laid over the sheet `baseline`: every non-empty cell of
/// the delta replaces the baseline's cell at the same place; all other cells
/// of the baseline stay as they are.
pub fn merge_grids(baseline: &Grid, delta: &Grid) -> (r: Grid)
    ensures
        r@ == overlay(baseline@, delta@),
{
    let h = if baseline.rows.len() >= delta.rows.len() {
        baseline.rows.len()
    } else {
        delta.rows.len()
    };
    let mut rows: Vec<Vec<CellValue>> = Vec::new();
    let mut i: usize = 0;
    while i < h
        invariant
            i <= h,
            h == max(baseline@.len() as int, delta@.len() as int),
            rows@.len() == i,
            forall|k: int| 0 <= k < i ==> row_view(#[trigger] rows@[k]@) == overlay(baseline@, delta@)[k],
        decreases h - i,
    {
        let lb = row_length(baseline, i);
        let ld = row_length(delta, i);
        let w = if lb >= ld {
            lb
        } else {
            ld
        };
        let mut row: Vec<CellValue> = Vec::new();
        let mut j: usize = 0;
        while j < w
            invariant
                j <= w,
                w == max(row_len(baseline@, i as int), row_len(delta@, i as int)),
                row@.len() == j,
                forall|k: int| 0 <= k < j ==> (#[trigger] row@[k])@ == overlay_cell(baseline@, delta@, i as int, k),
            decreases w - j,
        {
            row.push(overlay_at(baseline, delta, i, j));
            j = j + 1;
        }
        assert(row_view(row@) =~= overlay(baseline@, delta@)[i as int]);
        rows.push(row);
        i = i + 1;
    }
    let g = Grid { rows };
    assert(g@ =~= overlay(baseline@, delta@));
    g
}

/// Laying the same delta over a sheet a second time changes nothing: merging
/// one record twice against a baseline gives the sheet that merging it once
/// gives.
pub proof fn law_overlay_idempotent(base: Seq<Seq<CellView>>, top: Seq<Seq<CellView>>)
    ensures
        overlay(overlay(base, top), top) == overlay(base, top),
{
    let once = overlay(base, top);
    let twice = overlay(once, top);
    assert(twice.len() == once.len());
    assert forall|r: int| 0 <= r < once.len() implies #[trigger] twice[r] == once[r] by {
        assert(row_len(once, r) == max(row_len(base, r), row_len(top, r)));
        assert forall|c: int| 0 <= c < once[r].len() implies #[trigger] twice[r][c] == once[r][c] by {
            assert(cell_at(once, r, c) == Some(overlay_cell(base, top, r, c)));
        }
        assert(twice[r] =~= once[r]);
    }
    assert(twice =~= once);
}

/// The value that the last of the writes `w` at `(r, c)` puts there, if any.
pub open spec fn written_at(w: Seq<(int, int, int)>, r: int, c: int) -> Option<int>
    decreases w.len(),
{
    if w.len() == 0 {
        None
    } else if w.last().0 == r && w.last().1 == c {
        Some(w.last().2)
    } else {
        written_at(w.drop_last(), r, c)
    }
}

/// One more than the largest row of `w` (0 for no writes).
pub open spec fn writes_height(w: Seq<(int, int, int)>) -> int
    decreases w.len(),
{
    if w.len() == 0 {
        0
    } else {
        max(writes_height(w.drop_last()), w.last().0 + 1)
    }
}

/// One more than the largest column of `w` (0 for no writes).
pub open spec fn writes_width(w: Seq<(int, int, int)>) -> int
    decreases w.len(),
{
    if w.len() == 0 {
        0
    } else {
        max(writes_width(w.drop_last()), w.last().1 + 1)
    }
}

/// The sheet that holds the writes `w` and nothing else: just large enough to
/// hold them, with every row equally long.
pub open spec fn sheet_of(w: Seq<(int, int, int)>) -> Seq<Seq<CellView>> {
    Seq::new(
        writes_height(w) as nat,
        |r: int|
            Seq::new(
                writes_width(w) as nat,
                |c: int|
                    match written_at(w, r, c) {
                        Some(v) => CellView::Number(v),
                        None => CellView::Empty,
                    },
            ),
    )
}

fn value_written_at(writes: &Vec<CellWrite>, r: usize, c: usize) -> (x: CellValue)
    ensures
        x@ == match written_at(writes_view(writes@), r as int, c as int) {
            Some(v) => CellView::Number(v),
            None => CellView::Empty,
        },
{
    let ghost w = writes_view(writes@);
    let mut found: Option<i128> = None;
    let mut i: usize = 0;
    while i < writes.len()
        invariant
            i <= writes@.len(),
            w == writes_view(writes@),
            match written_at(w.subrange(0, i as int), r as int, c as int) {
                Some(v) => found == Some(v as i128) && v == v as i128,
                None => found is None,
            },
        decreases writes@.len() - i,
    {
        assert(w.subrange(0, i + 1).drop_last() =~= w.subrange(0, i as int));
        if writes[i].row == r && writes[i].col == c {
            found = Some(writes[i].hundredths);
        }
        i = i + 1;
    }
    assert(w.subrange(0, i as int) =~= w);
    match found {
        Some(v) => CellValue::Number(v),
        None => CellValue::Empty,
    }
}

/// The sheet that holds the cells `writes` and nothing else.
pub fn delta_grid(writes: &Vec<CellWrite>) -> (g: Grid)
    requires
        forall|i: int|
            0 <= i < writes@.len() ==> (#[trigger] writes@[i]).row < usize::MAX && writes@[i].col
                < usize::MAX,
    ensures
        g@ == sheet_of(writes_view(writes@)),
{
    let ghost w = writes_view(writes@);
    let mut h: usize = 0;
    let mut wd: usize = 0;
    let mut i: usize = 0;
    while i < writes.len()
        invariant
            i <= writes@.len(),
            w == writes_view(writes@),
            forall|k: int|
                0 <= k < writes@.len() ==> (#[trigger] writes@[k]).row < usize::MAX
                    && writes@[k].col < usize::MAX,
            h == writes_height(w.subrange(0, i as int)),
            wd == writes_width(w.subrange(0, i as int)),
        decreases writes@.len() - i,
    {
        assert(w.subrange(0, i + 1).drop_last() =~= w.subrange(0, i as int));
        if writes[i].row + 1 > h {
            h = writes[i].row + 1;
        }
        if writes[i].col + 1 > wd {
            wd = writes[i].col + 1;
        }
        i = i + 1;
    }
    assert(w.subrange(0, i as int) =~= w);
    let mut rows: Vec<Vec<CellValue>> = Vec::new();
    let mut r: usize = 0;
    while r < h
        invariant
            r <= h,
            h == writes_height(w),
            wd == writes_width(w),
            w == writes_view(writes@),
            rows@.len() == r,
            forall|k: int| 0 <= k < r ==> row_view(#[trigger] rows@[k]@) == sheet_of(w)[k],
        decreases h - r,
    {
        let mut row: Vec<CellValue> = Vec::new();
        let mut c: usize = 0;
        while c < wd
            invariant
                c <= wd,
                wd == writes_width(w),
                w == writes_view(writes@),
                row@.len() == c,
                forall|k: int|
                    0 <= k < c ==> (#[trigger] row@[k])@ == match written_at(w, r as int, k) {
                        Some(v) => CellView::Number(v),
                        None => CellView::Empty,
                    },
            decreases wd - c,
        {
            row.push(value_written_at(writes, r, c));
            c = c + 1;
        }
        assert(row_view(row@) =~= sheet_of(w)[r as int]);
        rows.push(row);
        r = r + 1;
    }
    let g = Grid { rows };
    assert(g@ =~= sheet_of(w));
    g
}

/// Merging one record twice against the same baseline gives what merging it
/// once gives: the delta of a record targets the same cells both times, and
/// laying it over the once-merged sheet changes nothing.
pub proof fn law_merge_record_twice(
    year: int,
    month: Seq<char>,
    totals: Seq<(Seq<char>, int)>,
    base: Seq<Seq<CellView>>,
)
    requires
        delta_of(year, month, totals, base) is Ok,
    ensures
        ({
            let delta = sheet_of(delta_of(year, month, totals, base)->Ok_0);
            overlay(overlay(base, delta), delta) == overlay(base, delta)
        }),
{
    law_overlay_idempotent(base, sheet_of(delta_of(year, month, totals, base)->Ok_0));
}

} // verus!
