use budget::Calendar;

#[test]
fn iter_months() {
    let calendar = Calendar::new("2024-01-01");
    let months: Vec<String> = calendar
        .iter_months(3)
        .iter()
        .map(|date| date.format())
        .collect();
    assert_eq!(months, vec!["2024-01-01", "2024-02-01", "2024-03-01"]);
}

#[test]
fn iter_months_offset() {
    let calendar = Calendar::new("2024-02-01");
    let months: Vec<String> = calendar
        .iter_months(5)
        .iter()
        .map(|date| date.format())
        .collect();
    assert_eq!(
        months,
        vec![
            "2024-02-01",
            "2024-03-01",
            "2024-04-01",
            "2024-05-01",
            "2024-06-01"
        ]
    )
}

#[test]
fn iter_months_single() {
    let calendar = Calendar::new("2024-02-01");
    let months: Vec<String> = calendar
        .iter_months(1)
        .iter()
        .map(|date| date.format())
        .collect();
    assert_eq!(months, vec!["2024-02-01"])
}

#[test]
fn iter_months_empty() {
    let calendar = Calendar::new("2024-02-01");
    let months: Vec<String> = calendar
        .iter_months(0)
        .iter()
        .map(|date| date.format())
        .collect();
    assert!(months.is_empty())
}
