use acc_app::address::YEAR_MONTH_COLUMN;
use acc_app::grid::{CellValue, Grid};
use acc_app::ledger::{Expense, MonthExpenses};
use acc_app::merge::{
    delta_grid, merge_grids, xls_insert_monthly_expense_entry_in_a_new_workbook, AddressError,
    CellWrite,
};

const MONTHS: [&str; 12] = [
    "January", "February", "March", "April", "May", "June", "July", "August", "September",
    "October", "November", "December",
];

fn text(s: &str) -> CellValue {
    CellValue::Text(s.to_string())
}

/// One year block for 2023 at row 1, with three categories.
fn baseline() -> Grid {
    let mut rows: Vec<Vec<CellValue>> = vec![(0..5).map(|_| CellValue::Empty).collect()];
    rows.push(vec![
        CellValue::Empty,
        CellValue::Number(202300),
        text("Groceries"),
        text("Sweets"),
        text("Restaurants"),
    ]);
    for m in MONTHS.iter() {
        rows.push(vec![
            CellValue::Empty,
            text(m),
            CellValue::Number(20270),
            CellValue::Number(4045),
            CellValue::Number(9830),
        ]);
    }
    Grid { rows }
}

fn record(year: i64, month: &str, data: &[(&str, i128)]) -> MonthExpenses {
    MonthExpenses {
        year,
        month: month.to_string(),
        expenses_data: data
            .iter()
            .map(|(c, v)| Expense { category: c.to_string(), hundredths: *v })
            .collect(),
    }
}

fn number_at(g: &Grid, r: usize, c: usize) -> Option<i128> {
    match g.rows.get(r).and_then(|row| row.get(c)) {
        Some(CellValue::Number(v)) => Some(*v),
        _ => None,
    }
}

fn text_at(g: &Grid, r: usize, c: usize) -> Option<String> {
    match g.rows.get(r).and_then(|row| row.get(c)) {
        Some(CellValue::Text(s)) => Some(s.clone()),
        _ => None,
    }
}

#[test]
fn test_xls_insert_monthly_expense_entry() {
    let me = record(2023, "January", &[("Groceries", 15000), ("Other", 7550), ("Sweets", 5000)]);
    let result = xls_insert_monthly_expense_entry_in_a_new_workbook(&me, &baseline());
    assert!(result.is_ok());
    assert_eq!(
        result.unwrap(),
        vec![
            CellWrite { row: 2, col: 2, hundredths: 15000 },
            CellWrite { row: 2, col: 3, hundredths: 5000 },
        ]
    );
}

#[test]
fn july_entry_lands_in_july_row_and_drops_unknown_category() {
    let me = record(2023, "July", &[("Groceries", 15000), ("Other", 7550), ("Sweets", 5000)]);
    let writes = xls_insert_monthly_expense_entry_in_a_new_workbook(&me, &baseline()).unwrap();
    assert_eq!(
        writes,
        vec![
            CellWrite { row: 8, col: YEAR_MONTH_COLUMN + 1, hundredths: 15000 },
            CellWrite { row: 8, col: YEAR_MONTH_COLUMN + 2, hundredths: 5000 },
        ]
    );
    let merged = merge_grids(&baseline(), &delta_grid(&writes));
    assert_eq!(number_at(&merged, 8, 2), Some(15000));
    assert_eq!(number_at(&merged, 8, 3), Some(5000));
    assert_eq!(number_at(&merged, 8, 4), Some(9830));
    assert_eq!(merged.rows[1].len(), 5);
    assert_eq!(merged.rows.len(), 14);
}

#[test]
fn each_address_error_is_reported() {
    let base = baseline();
    let me = record(2030, "July", &[("Groceries", 1)]);
    assert_eq!(
        xls_insert_monthly_expense_entry_in_a_new_workbook(&me, &base).unwrap_err(),
        AddressError::YearNotFound
    );
    let me = record(2023, "Jul", &[("Groceries", 1)]);
    assert_eq!(
        xls_insert_monthly_expense_entry_in_a_new_workbook(&me, &base).unwrap_err(),
        AddressError::UnknownMonth
    );
    let mut bad = baseline();
    bad.rows[1][2] = CellValue::Number(7);
    let me = record(2023, "July", &[("Groceries", 1)]);
    assert_eq!(
        xls_insert_monthly_expense_entry_in_a_new_workbook(&me, &bad).unwrap_err(),
        AddressError::NoCategories
    );
}

#[test]
fn test_xls_perform_workbook_update() {
    let me = record(2023, "January", &[("Groceries", 15000), ("Restaurants", 9830)]);
    let base = baseline();
    let writes = xls_insert_monthly_expense_entry_in_a_new_workbook(&me, &base).unwrap();
    let merged = merge_grids(&base, &delta_grid(&writes));
    assert_eq!(number_at(&merged, 2, 2), Some(15000));
    assert_eq!(number_at(&merged, 2, 3), Some(4045));
    assert_eq!(number_at(&merged, 2, 4), Some(9830));
    assert_eq!(text_at(&merged, 1, 2), Some("Groceries".to_string()));
    assert_eq!(text_at(&merged, 13, 1), Some("December".to_string()));
}

#[test]
fn merging_twice_equals_merging_once() {
    let me = record(2023, "March", &[("Sweets", 123)]);
    let base = baseline();
    let writes = xls_insert_monthly_expense_entry_in_a_new_workbook(&me, &base).unwrap();
    let delta = delta_grid(&writes);
    let once = merge_grids(&base, &delta);
    let twice = merge_grids(&once, &delta);
    assert_eq!(once.rows.len(), twice.rows.len());
    for r in 0..once.rows.len() {
        assert_eq!(once.rows[r].len(), twice.rows[r].len());
        for c in 0..once.rows[r].len() {
            assert_eq!(format!("{:?}", once.rows[r][c]), format!("{:?}", twice.rows[r][c]));
        }
    }
    assert_eq!(number_at(&twice, 4, 3), Some(123));
}

#[test]
fn delta_grid_holds_only_the_writes() {
    let writes = vec![
        CellWrite { row: 1, col: 3, hundredths: 42 },
        CellWrite { row: 0, col: 0, hundredths: -5 },
        CellWrite { row: 1, col: 3, hundredths: 7 },
    ];
    let g = delta_grid(&writes);
    assert_eq!(g.rows.len(), 2);
    assert_eq!(g.rows[0].len(), 4);
    assert_eq!(number_at(&g, 1, 3), Some(7));
    assert_eq!(number_at(&g, 0, 0), Some(-5));
    assert!(matches!(g.rows[0][1], CellValue::Empty));
    assert_eq!(delta_grid(&Vec::new()).rows.len(), 0);
}

#[test]
fn empty_delta_cells_do_not_erase_baseline() {
    let base = Grid { rows: vec![vec![text("a"), CellValue::Number(1)]] };
    let top = Grid {
        rows: vec![
            vec![CellValue::Empty, CellValue::Number(2), CellValue::Number(3)],
            vec![text("b")],
        ],
    };
    let m = merge_grids(&base, &top);
    assert_eq!(text_at(&m, 0, 0), Some("a".to_string()));
    assert_eq!(number_at(&m, 0, 1), Some(2));
    assert_eq!(number_at(&m, 0, 2), Some(3));
    assert_eq!(text_at(&m, 1, 0), Some("b".to_string()));
}
