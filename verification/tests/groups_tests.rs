use sales::Groups;

#[test]
fn parse_groups_fn_correctly_parses_groups_config_file() {
    let text = "The Power of Go: Tests | The Power of Go: Tests.*\nFor the Love of Go | For the Love of Go .+\n";
    let groups = Groups::from_text(text).unwrap();
    assert_eq!(
        groups
            .product_group("The Power of Go: Tests (Go 1.22 edition)")
            .unwrap(),
        "The Power of Go: Tests"
    );
    assert_eq!(
        groups
            .product_group("For the Love of Go (Go 1.23 edition)")
            .unwrap(),
        "For the Love of Go"
    );
    assert_eq!(groups.product_group("bogus product"), None);
    assert_eq!(groups.product_group("For the Love of Go"), None);
}
