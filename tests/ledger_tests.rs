use acc_app::ledger::{millionths_to_cents, parse_month_expenses, MonthExpenses};

fn totals(m: &MonthExpenses) -> Vec<(String, i128)> {
    m.expenses_data.iter().map(|e| (e.category.clone(), e.hundredths)).collect()
}

#[test]
fn parses_sample_ledger() {
    let text = "July 2024\n\nGroceries\n12.5\n12\n3.33\n\nSweets\n2.5\n7\n4.8\n\nRestaurant\n";
    let m = parse_month_expenses(text).expect("a record");
    assert_eq!(m.year, 2024);
    assert_eq!(m.month, "July");
    assert_eq!(
        totals(&m),
        vec![("Groceries".to_string(), 2783), ("Sweets".to_string(), 1430)]
    );
}

#[test]
fn repeated_category_sums_all_its_amounts() {
    let text = "March 2023\nFood\n1.10\nRent\n500\nFood\n2.205\n  \n";
    let m = parse_month_expenses(text).expect("a record");
    assert_eq!(
        totals(&m),
        vec![("Food".to_string(), 331), ("Rent".to_string(), 50000)]
    );
}

#[test]
fn header_without_year_gives_nothing() {
    let text = "July\n\nGroceries\n12.5\n12\n3.33\n\n\n\nSweets\n2.5\n7\n4.8\n\nRestaurant\n";
    assert!(parse_month_expenses(text).is_none());
    assert!(parse_month_expenses("July twenty\nFood\n1\n").is_none());
    assert!(parse_month_expenses("").is_none());
}

#[test]
fn year_out_of_range_gives_nothing() {
    assert!(parse_month_expenses("May 9223372036854775808\nFood\n1\n").is_none());
    let m = parse_month_expenses("May 9223372036854775807\nFood\n1\n").expect("a record");
    assert_eq!(m.year, i64::MAX);
    let m = parse_month_expenses("May -9223372036854775808\nFood\n1\n").expect("a record");
    assert_eq!(m.year, i64::MIN);
    let m = parse_month_expenses("  May   +2020  extra\r\nFood\n1\n").expect("a record");
    assert_eq!(m.year, 2020);
    assert_eq!(m.month, "May");
}

#[test]
fn no_categorised_amount_gives_nothing() {
    assert!(parse_month_expenses("July 2024\n12\n3\n").is_none());
    assert!(parse_month_expenses("July 2024\nGroceries\nSweets\n").is_none());
    assert!(parse_month_expenses("July 2024").is_none());
}

#[test]
fn amounts_before_any_category_are_dropped() {
    let m = parse_month_expenses("July 2024\n5\nFood\n1\n").expect("a record");
    assert_eq!(totals(&m), vec![("Food".to_string(), 100)]);
}

#[test]
fn rounding_is_half_away_from_zero() {
    let m = parse_month_expenses("July 2024\nA\n0.005\nB\n-0.005\nC\n0.004999\nD\n-1.2349\n")
        .expect("a record");
    assert_eq!(
        totals(&m),
        vec![
            ("A".to_string(), 1),
            ("B".to_string(), -1),
            ("C".to_string(), 0),
            ("D".to_string(), -123)
        ]
    );
}

#[test]
fn rounding_applies_to_the_sum_not_each_amount() {
    let m = parse_month_expenses("July 2024\nA\n0.004\n0.004\n").expect("a record");
    assert_eq!(totals(&m), vec![("A".to_string(), 1)]);
}

#[test]
fn amount_grammar_edges() {
    let m = parse_month_expenses("July 2024\nA\n+.5\n7.\n-0.25\n1e3\n2\n").expect("a record");
    // "1e3" is not an amount: it opens the category "1e3".
    assert_eq!(
        totals(&m),
        vec![("A".to_string(), 725), ("1e3".to_string(), 200)]
    );
}

#[test]
fn labels_are_trimmed() {
    let m = parse_month_expenses("July 2024\n  Food \t\n 3 \nFood\n4\n").expect("a record");
    assert_eq!(totals(&m), vec![("Food".to_string(), 700)]);
}

#[test]
fn rounding_to_cents_is_idempotent() {
    for m in [0i128, 4_999, 5_000, 27_830_000, 27_834_999, -15_000, -1_234_567_890] {
        let once = millionths_to_cents(m);
        assert_eq!(millionths_to_cents(once * 10_000), once);
    }
    assert_eq!(millionths_to_cents(27_825_000), 2783);
    assert_eq!(millionths_to_cents(-27_825_000), -2783);
}
