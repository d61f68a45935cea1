use sales::Report;
use sales::Usd;

const GROUPS_TEXT: &str = "The Power of Go | The Power of Go.*\nFor the Love of Go | For the Love of Go.*\n";

const GROUPS_BAD_TEXT: &str = "The Power of Go The Power of Go.*\n";

const SQUARESPACE_CSV: &str = "\
Lineitem quantity,Lineitem name,Lineitem price
6,Go mentoring,300.00
4,Code For Your Life,200.00
2,\"For the Love of Go: Video/Book Bundle (2023 edition)\",150.00
2,For the Love of Go (2023),120.00
2,The Power of Go: Tests,100.00
1,The Power of Go: Tools,69.15
";

const GUMROAD_CSV: &str = "\
Quantity,Item Name,Item Price ($)
3,For the Love of Go,0
2,The Power of Go: Tools,0.00
2,For the Love of Go,0
";

#[test]
fn report_read_groups_fn_correctly_parses_group_data() {
    let mut report = Report::new();
    report.read_groups(GROUPS_TEXT).unwrap();
    assert_eq!(
        report
            .product_group("The Power of Go: Tests (Go 1.22 edition)")
            .unwrap(),
        "The Power of Go"
    );
    assert_eq!(
        report
            .product_group("For the Love of Go (Go 1.23 edition)")
            .unwrap(),
        "For the Love of Go"
    );
    assert_eq!(report.product_group("bogus product"), None);
}

#[test]
fn report_read_groups_fn_returns_error_for_bad_line_format() {
    let mut report = Report::new();
    assert!(report.read_groups(GROUPS_BAD_TEXT).is_err());
}

#[test]
fn add_group_fn_adds_group_to_report() {
    let mut report = Report::new();
    report.add_group("Foo", "foo").unwrap();
    assert_eq!(report.product_group("foo variant 1"), Some("Foo".into()));
}

#[test]
fn report_read_csv_fn_correctly_parses_squarespace_data() {
    let mut report = Report::new();
    report.read_csv(SQUARESPACE_CSV).unwrap();
    assert_eq!(report.units(), 17, "wrong units");
    assert_eq!(report.revenue(), Usd::from_str("3,409.15").unwrap());
}

#[test]
fn report_read_csv_fn_correctly_parses_gumroad_data() {
    let mut report = Report::new();
    report.read_csv(GUMROAD_CSV).unwrap();
    assert_eq!(report.units(), 7, "wrong units");
    assert_eq!(report.revenue(), Usd::default());
}

#[test]
fn products_by_unit_sales_fn_sorts_prods_by_units() {
    let mut report = Report::new();
    report.read_csv(SQUARESPACE_CSV).unwrap();
    assert_eq!(
        report.products_by_revenue(),
        vec![
            "Go mentoring",
            "Code For Your Life",
            "For the Love of Go: Video/Book Bundle (2023 edition)",
            "For the Love of Go (2023)",
            "The Power of Go: Tests",
            "The Power of Go: Tools",
        ]
    );
}

#[test]
fn products_by_revenue_fn_sorts_prods_by_revenue() {
    let mut report = Report::new();
    report.read_csv(SQUARESPACE_CSV).unwrap();
    assert_eq!(
        report.products_by_unit_sales(),
        vec![
            "Go mentoring",
            "Code For Your Life",
            "For the Love of Go (2023)",
            "For the Love of Go: Video/Book Bundle (2023 edition)",
            "The Power of Go: Tests",
            "The Power of Go: Tools",
        ]
    );
}
