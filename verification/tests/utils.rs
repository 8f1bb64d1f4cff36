use lasttree::utils::human_number;

#[test]
fn test_human_number() {
    for (num, str) in [
        (1, "1"),
        (2, "2"),
        (10, "10"),
        (100, "100"),
        (1000, "1 K"),
        (10000, "10 K"),
        (999999, "999 K"),
        (1_000_000, "1 M"),
        (1_100_000, "1.1 M"),
        (1_100_001, "1.1 M"),
    ] {
        assert_eq!(human_number(num), str)
    }
}

#[test]
fn human_number_three_significant_figures() {
    assert_eq!(human_number(0), "0");
    assert_eq!(human_number(2_560_000), "2.56 M");
    assert_eq!(human_number(12_300_000), "12.3 M");
    assert_eq!(human_number(999), "999");
    assert_eq!(human_number(999_000), "999 K");
}
