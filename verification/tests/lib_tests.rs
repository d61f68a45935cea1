use sales::Report;
use sales::Usd;

const GROUPS_TEXT: &str = "The Power of Go | The Power of Go.*\nFor the Love of Go | For the Love of Go.*\n";

const GROUPS_BAD_TEXT: &str = "The Power of Go The Power of Go.*\n";

const SQUARESPACE_CSV: &str = "\
Lineitem quantity,Lineitem name,Lineitem price
6,Go mentoring,300.00
4,Code For Your Life,200.00
2,\"For the Love of Go: Video/Book Bundle (2023 edition)\",150.00
2,For the Love of Go (2023),120.00
2,The Power of Go: Tests,100.00
1,The Power of Go: Tools,69.15
";

const GUMROAD_CSV: &str = "\
Quantity,Item Name,Item Price ($)
3,For the Love of Go,0
2,The Power of Go: Tools,0.00
2,For the Love of Go,0
";

#[test]
fn lib_read_groups_fn_correctly_parses_group_data() {
    let mut reporter = Report::new();
    reporter.read_groups(GROUPS_TEXT).unwrap();
    assert_eq!(
        reporter
            .product_group("The Power of Go: Tests (Go 1.22 edition)")
            .unwrap(),
        "The Power of Go"
    );
    assert_eq!(
        reporter
            .product_group("For the Love of Go (Go 1.23 edition)")
            .unwrap(),
        "For the Love of Go"
    );
    assert_eq!(reporter.product_group("bogus product"), None);
}

#[test]
fn lib_read_groups_fn_returns_error_for_bad_line_format() {
    let mut reporter = Report::new();
    assert!(reporter.read_groups(GROUPS_BAD_TEXT).is_err());
}

#[test]
fn add_group_fn_adds_group_to_reporter() {
    let mut reporter = Report::new();
    reporter.add_group("Foo", "foo").unwrap();
    assert_eq!(reporter.product_group("foo variant 1"), Some("Foo".into()));
}

#[test]
fn lib_read_csv_fn_correctly_parses_squarespace_data() {
    let mut reporter = Report::new();
    reporter.read_csv(SQUARESPACE_CSV).unwrap();
    assert_eq!(reporter.units(), 17, "wrong units");
    assert_eq!(reporter.revenue(), Usd::from_str("3,409.15").unwrap());
}

#[test]
fn lib_read_csv_fn_correctly_parses_gumroad_data() {
    let mut reporter = Report::new();
    reporter.read_csv(GUMROAD_CSV).unwrap();
    assert_eq!(reporter.units(), 7, "wrong units");
    assert_eq!(reporter.revenue(), Usd::default());
}
