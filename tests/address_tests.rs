use acc_app::address::{
    xls_categories_to_vec, xls_find_month_entry_row_number, xls_find_year_entry_row_number,
    Month, YEAR_MONTH_COLUMN,
};
use acc_app::grid::{CellValue, Grid};

const MONTHS: [&str; 12] = [
    "January", "February", "March", "April", "May", "June", "July", "August", "September",
    "October", "November", "December",
];

fn text(s: &str) -> CellValue {
    CellValue::Text(s.to_string())
}

fn empty_row() -> Vec<CellValue> {
    (0..5).map(|_| CellValue::Empty).collect()
}

/// Four year blocks (2023 to 2026) from row 1, categories in columns 2 to 4.
fn sample_sheet() -> Grid {
    let mut rows: Vec<Vec<CellValue>> = vec![empty_row()];
    for year in 2023..2027 {
        rows.push(vec![
            CellValue::Empty,
            CellValue::Number(year * 100),
            text("Groceries"),
            text("Sweets"),
            text("Restaurants"),
        ]);
        for m in MONTHS.iter() {
            rows.push(vec![
                CellValue::Empty,
                text(m),
                CellValue::Number(20270),
                CellValue::Number(4045),
                CellValue::Number(9830),
            ]);
        }
        if year < 2026 {
            rows.push(empty_row());
            rows.push(empty_row());
        }
    }
    Grid { rows }
}

#[test]
fn test_xls_find_year_entry_row_number() {
    let grid = sample_sheet();
    let result = xls_find_year_entry_row_number(YEAR_MONTH_COLUMN, 2026, &grid);
    assert!(result.is_some());
    assert_eq!(result, Some(46));
    let result = xls_find_year_entry_row_number(YEAR_MONTH_COLUMN, 2022, &grid);
    assert!(result.is_none());
}

#[test]
fn find_year_first_block_and_fractional_cell() {
    let mut grid = sample_sheet();
    assert_eq!(xls_find_year_entry_row_number(YEAR_MONTH_COLUMN, 2023, &grid), Some(1));
    assert_eq!(xls_find_year_entry_row_number(YEAR_MONTH_COLUMN, 2024, &grid), Some(16));
    // A year stored with a fractional part still matches after truncation.
    grid.rows[16][1] = CellValue::Number(202475);
    assert_eq!(xls_find_year_entry_row_number(YEAR_MONTH_COLUMN, 2024, &grid), Some(16));
}

#[test]
fn find_year_stops_at_text_in_year_cell() {
    let mut grid = sample_sheet();
    grid.rows[16][1] = text("oops");
    assert_eq!(xls_find_year_entry_row_number(YEAR_MONTH_COLUMN, 2025, &grid), None);
    assert_eq!(xls_find_year_entry_row_number(YEAR_MONTH_COLUMN, 2023, &grid), Some(1));
}

#[test]
fn find_year_is_repeatable() {
    let grid = sample_sheet();
    let a = xls_find_year_entry_row_number(YEAR_MONTH_COLUMN, 2025, &grid);
    let b = xls_find_year_entry_row_number(YEAR_MONTH_COLUMN, 2025, &grid);
    assert_eq!(a, b);
    assert_eq!(a, Some(31));
    assert_eq!(xls_find_year_entry_row_number(YEAR_MONTH_COLUMN, 1999, &Grid::new()), None);
}

#[test]
fn test_xls_find_month_entry_row_number() {
    let year_row = 1;
    let result = xls_find_month_entry_row_number(year_row, "January".to_string());
    assert_eq!(result, Some(2));
    let result = xls_find_month_entry_row_number(year_row, "February".to_string());
    assert_eq!(result, Some(3));
    let result = xls_find_month_entry_row_number(year_row, "InvalidMonth".to_string());
    assert!(result.is_none());
}

#[test]
fn month_rows_span_the_block() {
    assert_eq!(xls_find_month_entry_row_number(31, "December".to_string()), Some(43));
    assert_eq!(xls_find_month_entry_row_number(0, "July".to_string()), Some(7));
    assert_eq!(xls_find_month_entry_row_number(5, "january".to_string()), None);
    assert_eq!(xls_find_month_entry_row_number(usize::MAX - 1, "March".to_string()), None);
    assert_eq!(Month::from_name("October"), Some(Month::October));
    assert_eq!(Month::October.offset(), 10);
}

#[test]
fn test_xls_categories_to_vec() {
    let grid = sample_sheet();
    let result = xls_categories_to_vec(1, &grid);
    assert!(result.is_some());
    let expected_categories = vec![
        "Groceries".to_string(),
        "Sweets".to_string(),
        "Restaurants".to_string(),
    ];
    assert_eq!(result.unwrap(), expected_categories);
    let result = xls_categories_to_vec(0, &grid);
    assert!(result.is_none());
}

#[test]
fn categories_stop_at_empty_and_reject_numbers() {
    let mut grid = sample_sheet();
    grid.rows[1][3] = CellValue::Empty;
    assert_eq!(xls_categories_to_vec(1, &grid), Some(vec!["Groceries".to_string()]));
    grid.rows[1][3] = CellValue::Number(5);
    assert_eq!(xls_categories_to_vec(1, &grid), None);
    assert_eq!(xls_categories_to_vec(500, &grid), None);
}
