use iomon::vmstat::{parse, parse_fits};

#[test]
fn parses_page_counters_as_bytes() {
    let text = "\
nr_free_pages 12345
pgpgin 1000
pgpgout 2048
pswpin 3
";
    assert_eq!(parse(text), Some((1000 * 1024, 2048 * 1024)));
}

#[test]
fn rejects_incomplete_vmstat() {
    assert_eq!(parse("pgpgin 10\n"), None);
    assert_eq!(parse("pgpgout 10\n"), None);
    assert_eq!(parse("pgpgin nope\npgpgout 1\n"), None);
}

#[test]
fn the_last_line_counts() {
    assert_eq!(parse("pgpgin 1\npgpgout 2\npgpgin 3 4\n"), Some((3072, 2048)));
    assert_eq!(parse("pgpgin 1\npgpgout 2\npgpgin x\n"), None);
    assert_eq!(parse("pgpgin 1\npgpgin\npgpgout 2"), Some((1024, 2048)));
    assert_eq!(parse(""), None);
}

#[test]
fn bytes_that_do_not_fit_are_told() {
    assert!(parse_fits("pgpgin 18014398509481983\npgpgout 1\n"));
    assert!(!parse_fits("pgpgin 18014398509481984\npgpgout 1\n"));
    assert!(!parse_fits("pgpgin 18014398509481984\n"));
    assert!(parse_fits("pgpgout 18014398509481984\n"));
}
