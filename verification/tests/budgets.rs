use budget::export::{parse_amount, parse_amount_cents};
use budget::{Budget, BudgetError, Calendar, Config, Date, Export, Operation, Payment, Recurence, Subscription};

fn date(s: &str) -> Date {
    Date::parse(s).expect("date text should parse")
}

fn gym_config(start: &str) -> Config {
    Config {
        start_at: Some(start.to_string()),
        subscriptions: vec![Subscription::new("Gym", -3000, "2024-01-05", Recurence::Monthly)],
    }
}

fn op(date_op: &str, label: &str, amount: &str) -> Operation {
    Operation {
        date_op: date_op.to_string(),
        date_val: date_op.to_string(),
        label: label.to_string(),
        category: String::new(),
        category_parent: String::new(),
        supplier_found: String::new(),
        amount: amount.to_string(),
        account_num: String::new(),
        account_label: String::new(),
        account_balance: String::new(),
        comment: None,
        pointer: String::new(),
    }
}

fn month_sums(b: &Budget, months: u32, filter: &Vec<String>) -> Vec<i128> {
    b.group_by_month(months, filter)
        .iter()
        .map(|(_, g)| g.sum())
        .collect()
}

#[test]
fn recurence_resolves_occurrence_count() {
    assert_eq!(Recurence::Monthly.months(12), 12);
    assert_eq!(Recurence::NumberOfMonths(3).months(12), 3);
    assert_eq!(Recurence::NumberOfMonths(20).months(12), 20);
}

#[test]
fn payment_defaults_to_single_occurrence() {
    let p = Payment::new("Groceries", -4500, "2024-03-10", None);
    let occurrences = p.repeat(12);
    assert_eq!(occurrences.len(), 1);
    assert_eq!(occurrences[0].date(), date("2024-03-10"));
    assert_eq!(occurrences[0].amount(), -4500);
}

#[test]
fn monthly_payment_expands_over_whole_horizon() {
    let p = Payment::new("Rent", -80000, "2024-01-31", Some(Recurence::Monthly));
    let occurrences = p.repeat(4);
    let dates: Vec<Date> = occurrences.iter().map(|o| o.date()).collect();
    assert_eq!(
        dates,
        vec![
            date("2024-01-31"),
            date("2024-02-29"),
            date("2024-03-31"),
            date("2024-04-30")
        ]
    );
}

#[test]
fn label_match_is_case_insensitive_substring() {
    let rent_a = Payment::new("Rent A", -1000, "2024-01-01", None);
    let car = Payment::new("CAR RENTAL", -2000, "2024-01-01", None);
    let elec = Payment::new("Electricity", -3000, "2024-01-01", None);
    assert!(rent_a.label_match("rent"));
    assert!(car.label_match("rent"));
    assert!(!elec.label_match("rent"));
}

#[test]
fn monthly_payment_contributes_to_every_bucket_from_its_month() {
    let b = Budget {
        payments: vec![Payment::new("Rent", -500, "2024-02-10", Some(Recurence::Monthly))],
        calendar: Calendar::new("2024-01-01"),
    };
    assert_eq!(month_sums(&b, 4, &vec![]), vec![0, -500, -500, -500]);
}

#[test]
fn fixed_count_payment_contributes_to_exactly_its_months() {
    let b = Budget {
        payments: vec![Payment::new(
            "Course",
            -250,
            "2024-02-01",
            Some(Recurence::NumberOfMonths(3)),
        )],
        calendar: Calendar::new("2024-01-01"),
    };
    let sums = month_sums(&b, 12, &vec![]);
    assert_eq!(
        sums,
        vec![0, -250, -250, -250, 0, 0, 0, 0, 0, 0, 0, 0]
    );
}

#[test]
fn filtering_keeps_only_matching_labels() {
    let b = Budget {
        payments: vec![
            Payment::new("Rent A", -1000, "2024-01-01", Some(Recurence::Monthly)),
            Payment::new("CAR RENTAL", -2000, "2024-01-01", Some(Recurence::Monthly)),
            Payment::new("Electricity", -300, "2024-01-01", Some(Recurence::Monthly)),
        ],
        calendar: Calendar::new("2024-01-01"),
    };
    assert_eq!(month_sums(&b, 2, &vec!["rent".to_string()]), vec![-3000, -3000]);
    assert_eq!(month_sums(&b, 2, &vec![]), vec![-3300, -3300]);
    assert_eq!(month_sums(&b, 2, &vec!["zzz".to_string()]), vec![0, 0]);
}

#[test]
fn occurrences_outside_the_horizon_are_dropped() {
    let b = Budget {
        payments: vec![Payment::new(
            "Early",
            -100,
            "2023-11-15",
            Some(Recurence::NumberOfMonths(2)),
        )],
        calendar: Calendar::new("2024-01-01"),
    };
    assert_eq!(month_sums(&b, 3, &vec![]), vec![0, 0, 0]);
}

#[test]
fn merge_is_commutative_in_month_sums() {
    let make_a = || Budget {
        payments: vec![
            Payment::new("Rent", -800, "2024-01-03", Some(Recurence::Monthly)),
            Payment::new("Salary", 2500, "2024-01-28", Some(Recurence::Monthly)),
        ],
        calendar: Calendar::new("2024-01-01"),
    };
    let make_b = || Budget {
        payments: vec![Payment::new(
            "Gym",
            -30,
            "2024-02-05",
            Some(Recurence::NumberOfMonths(2)),
        )],
        calendar: Calendar::new("2024-02-01"),
    };
    let ab = Budget::from_sources(vec![make_a(), make_b()]).unwrap();
    let ba = Budget::from_sources(vec![make_b(), make_a()]).unwrap();
    assert_eq!(month_sums(&ab, 6, &vec![]), month_sums(&ba, 6, &vec![]));
    assert_eq!(ab.calendar.start_at, date("2024-01-01"));
    assert_eq!(ba.calendar.start_at, date("2024-01-01"));
}

#[test]
fn merge_keeps_equal_dates_in_pooled_order() {
    let one = |label: &str| Budget {
        payments: vec![Payment::new(label, -100, "2024-01-05", None)],
        calendar: Calendar::new("2024-01-01"),
    };
    let ab = Budget::from_sources(vec![one("First"), one("Second")]).unwrap();
    let labels: Vec<String> = ab.payments.iter().map(|p| p.label().clone()).collect();
    assert_eq!(labels, vec!["First", "Second"]);
    let ba = Budget::from_sources(vec![one("Second"), one("First")]).unwrap();
    let labels: Vec<String> = ba.payments.iter().map(|p| p.label().clone()).collect();
    assert_eq!(labels, vec!["Second", "First"]);
}

#[test]
fn end_to_end_monthly_gym_subscription() {
    let b = Budget::from_config(gym_config("2024-01-01")).unwrap();
    let rows = b.show_rows(3, &vec![]);
    let rendered: Vec<(String, i128, i128)> = rows
        .iter()
        .map(|(d, total, month)| (d.format(), *total, *month))
        .collect();
    assert_eq!(
        rendered,
        vec![
            ("2024-01-01".to_string(), 0, -3000),
            ("2024-02-01".to_string(), -3000, -3000),
            ("2024-03-01".to_string(), -6000, -3000),
        ]
    );
}

#[test]
fn no_source_is_fatal() {
    assert!(matches!(
        Budget::from_sources(vec![]),
        Err(BudgetError::NoSourceProvided)
    ));
}

#[test]
fn merging_nothing_into_nothing_is_fatal() {
    let mut a = Budget {
        payments: vec![],
        calendar: Calendar::new("2024-03-01"),
    };
    let b = Budget {
        payments: vec![],
        calendar: Calendar::new("2024-02-01"),
    };
    assert!(matches!(a.merge(b), Err(BudgetError::EmptySource)));
    assert!(a.payments.is_empty());
    assert_eq!(a.calendar.start_at, date("2024-03-01"));
}

#[test]
fn merge_pools_sorts_and_reanchors() {
    let mut a = Budget {
        payments: vec![Payment::new("Later", -10, "2024-03-15", None)],
        calendar: Calendar::new("2024-03-01"),
    };
    let b = Budget {
        payments: vec![Payment::new("Earlier", -20, "2024-01-20", None)],
        calendar: Calendar::new("2024-01-01"),
    };
    assert!(a.merge(b).is_ok());
    let labels: Vec<String> = a.payments.iter().map(|p| p.label().clone()).collect();
    assert_eq!(labels, vec!["Earlier", "Later"]);
    assert_eq!(a.calendar.start_at, date("2024-01-01"));
}

#[test]
fn merging_only_empty_sources_is_fatal() {
    let empty = || Budget {
        payments: vec![],
        calendar: Calendar::new("2024-01-01"),
    };
    assert!(matches!(
        Budget::from_sources(vec![empty(), empty()]),
        Err(BudgetError::EmptySource)
    ));
}

#[test]
fn config_with_bad_date_is_fatal() {
    let config = Config {
        start_at: None,
        subscriptions: vec![Subscription::new("Rent", -800, "01-2024-05", Recurence::Monthly)],
    };
    assert!(matches!(
        Budget::from_config(config),
        Err(BudgetError::FormatError)
    ));
}

#[test]
fn config_with_out_of_range_amount_is_fatal() {
    let config = Config {
        start_at: Some("2024-01-01".to_string()),
        subscriptions: vec![Subscription::new(
            "Windfall",
            10_000_000_000_001,
            "2024-01-03",
            Recurence::Monthly,
        )],
    };
    assert!(matches!(
        Budget::from_config(config),
        Err(BudgetError::AmountOutOfRange)
    ));
}

#[test]
fn config_amounts_are_copied_verbatim() {
    let config = Config {
        start_at: Some("2024-01-01".to_string()),
        subscriptions: vec![Subscription::new(
            "Windfall",
            9_999_999_999_999,
            "2024-01-03",
            Recurence::Monthly,
        )],
    };
    let b = Budget::from_config(config).unwrap();
    assert_eq!(b.payments[0].amount(), 9_999_999_999_999);
}

#[test]
fn config_recurrence_defaults_to_monthly() {
    let config = Config {
        start_at: Some("2024-01-01".to_string()),
        subscriptions: vec![Subscription {
            label: "Rent".to_string(),
            amount: -800,
            date: "2024-01-03".to_string(),
            recurence: None,
        }],
    };
    let b = Budget::from_config(config).unwrap();
    assert_eq!(month_sums(&b, 3, &vec![]), vec![-800, -800, -800]);
}

#[test]
fn export_rows_become_sorted_single_payments() {
    let export = Export(vec![
        op("15/03/2024", "Groceries", "-45,30"),
        op("02/01/2024", "Salary", "2 500,00"),
        op("10/02/2024", "Electricity", "-60,00"),
    ]);
    let b = Budget::from_export(export).unwrap();
    assert_eq!(b.calendar.start_at, date("2024-01-02"));
    let dates: Vec<Date> = b.payments.iter().map(|p| p.date()).collect();
    assert_eq!(
        dates,
        vec![date("2024-01-02"), date("2024-02-10"), date("2024-03-15")]
    );
    assert_eq!(month_sums(&b, 3, &vec![]), vec![250000, -6000, -4530]);
}

#[test]
fn export_rows_with_bad_dates_are_skipped() {
    let export = Export(vec![
        op("garbage", "Skipped", "-1,00"),
        op("05/01/2024", "Kept", "-2,00"),
    ]);
    let b = Budget::from_export(export).unwrap();
    assert_eq!(b.payments.len(), 1);
    assert_eq!(b.payments[0].amount(), -200);
}

#[test]
fn export_with_no_usable_row_is_fatal() {
    let export = Export(vec![op("garbage", "Skipped", "-1,00")]);
    assert!(matches!(
        Budget::from_export(export),
        Err(BudgetError::EmptySource)
    ));
}

#[test]
fn amount_parsing_normalizes_locale_formats() {
    assert_eq!(parse_amount_cents("1 234,56"), 123456);
    assert_eq!(parse_amount_cents("-12,5"), -1250);
    assert_eq!(parse_amount_cents("12.34"), 1234);
    assert_eq!(parse_amount_cents("+7"), 700);
    assert_eq!(parse_amount_cents("2 500,00"), 250000);
    assert_eq!(parse_amount_cents("0,05"), 5);
    assert_eq!(parse_amount_cents(",5"), 50);
    assert_eq!(parse_amount_cents("-,5"), -50);
    assert_eq!(parse_amount_cents(".5"), 50);
    assert_eq!(parse_amount_cents("5."), 500);
}

#[test]
fn amount_parse_tells_malformed_from_zero() {
    assert_eq!(parse_amount("0,00"), Some(0));
    assert_eq!(parse_amount("-12,5"), Some(-1250));
    assert_eq!(parse_amount("garbage"), None);
    assert_eq!(parse_amount(""), None);
}

#[test]
fn unparseable_amounts_degrade_to_zero() {
    assert_eq!(parse_amount_cents("abc"), 0);
    assert_eq!(parse_amount_cents(""), 0);
    assert_eq!(parse_amount_cents("."), 0);
    assert_eq!(parse_amount_cents("-"), 0);
    assert_eq!(parse_amount_cents("12,34,56"), 0);
    assert_eq!(parse_amount_cents("--5"), 0);
    assert_eq!(parse_amount_cents("1e5"), 0);
    assert_eq!(parse_amount_cents("999999999999999999999"), 0);
}

#[test]
fn filter_strings_are_or_matched() {
    let b = Budget {
        payments: vec![
            Payment::new("Rent A", -1000, "2024-01-01", Some(Recurence::Monthly)),
            Payment::new("Electricity", -300, "2024-01-01", Some(Recurence::Monthly)),
            Payment::new("Water", -50, "2024-01-01", Some(Recurence::Monthly)),
        ],
        calendar: Calendar::new("2024-01-01"),
    };
    let filter = vec!["rent".to_string(), "elec".to_string()];
    assert_eq!(month_sums(&b, 1, &filter), vec![-1300]);
}

#[test]
fn payments_at_collects_one_month() {
    let b = Budget {
        payments: vec![
            Payment::new("Rent", -800, "2024-01-03", Some(Recurence::Monthly)),
            Payment::new("One-off", -120, "2024-02-20", None),
        ],
        calendar: Calendar::new("2024-01-01"),
    };
    let feb = b.payments_at(Date::parse("2024-02-01").unwrap(), 3, &vec![]);
    assert_eq!(feb.sum(), -920);
    let dates: Vec<Date> = feb.iter().iter().map(|p| p.date()).collect();
    assert_eq!(dates, vec![date("2024-02-03"), date("2024-02-20")]);
}

#[test]
fn horizon_check_guards_the_date_range() {
    let b = Budget {
        payments: vec![Payment::new("Far", -1, "9999-01-01", Some(Recurence::Monthly))],
        calendar: Calendar::new("9999-01-01"),
    };
    assert!(b.horizon_ok(11));
    assert!(!b.horizon_ok(13));
}

#[test]
fn group_sum_adds_amounts() {
    let b = Budget {
        payments: vec![
            Payment::new("A", -100, "2024-01-05", None),
            Payment::new("B", 250, "2024-01-20", None),
        ],
        calendar: Calendar::new("2024-01-01"),
    };
    let groups = b.group_by_month(1, &vec![]);
    assert_eq!(groups.len(), 1);
    assert_eq!(groups[0].1.sum(), 150);
    assert_eq!(groups[0].1.iter().len(), 2);
}
