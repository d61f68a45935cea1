use sales::ConfigError;
use sales::Record;
use sales::RecordError;
use sales::Report;
use sales::Usd;

#[test]
fn money_parse_accepts_separators_and_counts_cents() {
    assert_eq!(Usd::from_str("3,409.15").unwrap(), Usd::new(340915));
    assert_eq!(Usd::from_str("0").unwrap(), Usd::new(0));
    assert_eq!(Usd::from_str("5.00").unwrap(), Usd::new(500));
    assert_eq!(Usd::from_str("-0.05").unwrap(), Usd::new(-5));
    assert_eq!(Usd::from_str("+12.34").unwrap(), Usd::new(1234));
}

#[test]
fn money_parse_rejects_bad_input() {
    assert!(Usd::from_str("").is_err());
    assert!(Usd::from_str("abc").is_err());
    assert!(Usd::from_str("$5.00").is_err());
    assert!(Usd::from_str("12 34").is_err());
    assert!(Usd::from_str("99999999999999999999999999").is_err());
}

#[test]
fn money_format_renders_two_decimals_right_aligned() {
    assert_eq!(Usd::new(340915).format(), "     3409.15");
    assert_eq!(Usd::new(0).format(), "        0.00");
    assert_eq!(Usd::new(-5).format(), "       -0.05");
    assert_eq!(Usd::new(7).format(), "        0.07");
}

#[test]
fn format_after_parse_reproduces_canonical_input() {
    for s in ["3,409.15", "0.00", "15.00", "-0.05", "1,000.00", "123456.78"] {
        let v = Usd::from_str(s).unwrap();
        let expected: String = s.chars().filter(|c| *c != ',').collect();
        assert_eq!(v.format().trim_start(), expected);
    }
}

#[test]
fn money_format_then_parse_round_trips() {
    for cents in [0i64, 1, 99, 100, 340915, -5, -100, 123456789] {
        let formatted = Usd::new(cents).format();
        let trimmed = formatted.trim_start();
        assert_eq!(Usd::from_str(trimmed).unwrap(), Usd::new(cents));
    }
}

#[test]
fn totals_equal_sum_over_products() {
    let csv = "\
Lineitem quantity,Lineitem name,Lineitem price
2,Alpha,1.50
3,Beta,2.00
4,Alpha,1.50
";
    let mut report = Report::new();
    report.read_csv(csv).unwrap();
    let mut units_sum: u64 = 0;
    let mut revenue_sum: i64 = 0;
    for name in report.products_by_unit_sales() {
        let (units, revenue) = report.product(&name).unwrap();
        units_sum += units;
        revenue_sum += revenue.cents();
    }
    assert_eq!(report.units(), units_sum);
    assert_eq!(report.revenue().cents(), revenue_sum);
}

#[test]
fn group_resolution_is_order_sensitive() {
    let mut report = Report::new();
    report.add_group("A", "foo").unwrap();
    report.add_group("B", "foobar").unwrap();
    assert_eq!(report.product_group("foobar item"), Some("A".into()));
}

#[test]
fn unmatched_line_item_keeps_its_own_name() {
    let csv = "\
Lineitem quantity,Lineitem name,Lineitem price
1,plain old product,2.00
";
    let mut report = Report::new();
    report.add_group("Foo", "foo").unwrap();
    report.read_csv(csv).unwrap();
    assert_eq!(report.product("plain old product"), Some((1, Usd::new(200))));
    assert_eq!(report.products_by_unit_sales(), vec!["plain old product"]);
}

#[test]
fn both_orders_list_the_same_names() {
    let csv = "\
Lineitem quantity,Lineitem name,Lineitem price
5,Cheap But Popular,1.00
1,Dear But Rare,100.00
3,Middle,10.00
";
    let mut report = Report::new();
    report.read_csv(csv).unwrap();
    let by_units = report.products_by_unit_sales();
    let by_revenue = report.products_by_revenue();
    assert_eq!(by_units, vec!["Cheap But Popular", "Middle", "Dear But Rare"]);
    assert_eq!(by_revenue, vec!["Dear But Rare", "Middle", "Cheap But Popular"]);
    let mut a = by_units.clone();
    let mut b = by_revenue.clone();
    a.sort();
    b.sort();
    assert_eq!(a, b);
}

#[test]
fn ties_break_alphabetically_in_both_orders() {
    let csv = "\
Quantity,Item Name,Item Price ($)
2,Zeta,3.00
2,Alpha,3.00
2,Mu,3.00
";
    let mut report = Report::new();
    report.read_csv(csv).unwrap();
    assert_eq!(report.products_by_unit_sales(), vec!["Alpha", "Mu", "Zeta"]);
    assert_eq!(report.products_by_revenue(), vec!["Alpha", "Mu", "Zeta"]);
}

#[test]
fn example_group_file_resolves_power_of_go() {
    let text = "The Power of Go | The Power of Go.*\nFor the Love of Go | For the Love of Go.*\n";
    let mut report = Report::new();
    report.read_groups(text).unwrap();
    assert_eq!(
        report.product_group("The Power of Go: Tests (Go 1.22 edition)"),
        Some("The Power of Go".into())
    );
    assert_eq!(report.product_group("bogus product"), None);
}

#[test]
fn example_two_widget_rows_aggregate() {
    let csv = "\
Lineitem quantity,Lineitem name,Lineitem price
2,Widget,5.00
1,Widget,5.00
";
    let mut report = Report::new();
    report.read_csv(csv).unwrap();
    assert_eq!(report.product("Widget"), Some((3, Usd::new(1500))));
    assert_eq!(report.units(), 3);
    assert_eq!(report.revenue(), Usd::new(1500));
}

#[test]
fn malformed_group_line_fails_load_without_partial_rules() {
    let text = "Foo | foo\nthis line has no delimiter\nBar | bar\n";
    let mut report = Report::new();
    let err = report.read_groups(text);
    assert!(matches!(
        err,
        Err(ConfigError::BadLine { line_number: 2, .. })
    ));
    // no partial rule set was kept
    assert_eq!(report.product_group("foo thing"), None);
    assert_eq!(report.product_group("bar thing"), None);
}

#[test]
fn invalid_regex_fails_load_with_its_pattern() {
    let mut report = Report::new();
    let err = report.add_group("Broken", "(unclosed");
    match err {
        Err(ConfigError::BadPattern { pattern }) => assert_eq!(pattern, "(unclosed"),
        other => panic!("expected BadPattern, got {:?}", other),
    }
}

#[test]
fn malformed_csv_row_fails_build_without_partial_report() {
    let csv = "\
Lineitem quantity,Lineitem name,Lineitem price
2,Good Product,5.00
oops,Bad Product,5.00
";
    let mut report = Report::new();
    let err = report.read_csv(csv);
    assert!(matches!(err, Err(RecordError::BadQuantity { .. })));
    assert_eq!(report.units(), 0);
    assert_eq!(report.products_by_unit_sales(), Vec::<String>::new());
}

#[test]
fn bad_price_cell_names_the_cell() {
    let csv = "\
Lineitem quantity,Lineitem name,Lineitem price
1,Thing,not-a-price
";
    let mut report = Report::new();
    match report.read_csv(csv) {
        Err(RecordError::BadPrice { value }) => assert_eq!(value, "not-a-price"),
        other => panic!("expected BadPrice, got {:?}", other),
    }
}

#[test]
fn missing_name_column_is_reported() {
    let csv = "Lineitem quantity,Lineitem price\n1,5.00\n";
    let mut report = Report::new();
    assert!(matches!(
        report.read_csv(csv),
        Err(RecordError::MissingName)
    ));
}

#[test]
fn missing_price_column_is_reported() {
    let csv = "Lineitem quantity,Lineitem name\n1,Thing\n";
    let mut report = Report::new();
    assert!(matches!(
        report.read_csv(csv),
        Err(RecordError::MissingPrice)
    ));
}

#[test]
fn unequal_row_length_is_a_csv_error() {
    let csv = "Lineitem quantity,Lineitem name,Lineitem price\n1,Thing,5.00,extra\n";
    let mut report = Report::new();
    assert!(matches!(report.read_csv(csv), Err(RecordError::Csv)));
}

#[test]
fn aggregate_overflow_is_reported() {
    let csv = "\
Lineitem quantity,Lineitem name,Lineitem price
2,Everything,92233720368547758.07
";
    let mut report = Report::new();
    assert!(matches!(report.read_csv(csv), Err(RecordError::Overflow)));
}

#[test]
fn quoted_fields_with_commas_parse_through_the_csv_layer() {
    let csv = "\
Lineitem quantity,Lineitem name,Lineitem price
2,\"Widget, Large\",\"1,000.00\"
";
    let mut report = Report::new();
    report.read_csv(csv).unwrap();
    assert_eq!(report.product("Widget, Large"), Some((2, Usd::new(200000))));
}

#[test]
fn quantity_defaults_to_one_without_a_quantity_column() {
    let csv = "Item Name,Item Price ($)\nSolo,2.50\nSolo,2.50\n";
    let mut report = Report::new();
    report.read_csv(csv).unwrap();
    assert_eq!(report.product("Solo"), Some((2, Usd::new(500))));
}

#[test]
fn records_can_be_added_directly() {
    let mut report = Report::new();
    report.add_group("Gadgets", "gadget").unwrap();
    let records = vec![
        Record {
            qty: 2,
            name: "red gadget".to_string(),
            price: Usd::new(150),
        },
        Record {
            qty: 1,
            name: "blue gadget".to_string(),
            price: Usd::new(250),
        },
    ];
    report.add_records(&records).unwrap();
    assert_eq!(report.product("Gadgets"), Some((3, Usd::new(550))));
    assert_eq!(report.units(), 3);
}

#[test]
fn render_draws_an_aligned_table() {
    let csv = "\
Lineitem quantity,Lineitem name,Lineitem price
2,Widget,5.00
1,Widget,5.00
";
    let mut report = Report::new();
    report.read_csv(csv).unwrap();
    let expected = format!(
        "Product / Group  Units      Revenue\n{}\nWidget      3        15.00\n{}\nTotal       3        15.00\n",
        "-".repeat(26),
        "-".repeat(26),
    );
    assert_eq!(report.render(), expected);
}

#[test]
fn render_with_no_products_does_not_panic() {
    let report = Report::new();
    let rendered = report.render();
    assert!(rendered.starts_with("Product / Group"));
    assert!(rendered.contains("Total"));
}

#[test]
fn render_follows_the_revenue_order_when_asked() {
    let csv = "\
Lineitem quantity,Lineitem name,Lineitem price
5,Cheap But Popular,1.00
1,Dear But Rare,100.00
";
    let mut report = Report::new();
    report.sort_by_revenue = true;
    report.read_csv(csv).unwrap();
    let rendered = report.render();
    let dear = rendered.find("Dear But Rare").unwrap();
    let cheap = rendered.find("Cheap But Popular").unwrap();
    assert!(dear < cheap);
}
