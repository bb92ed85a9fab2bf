use hostlist::expand::HostIter;
use hostlist::numeric::{parse_u64, push_decimal, NumError};
use hostlist::pipeline::{expand_expression, expand_expressions};
use hostlist::token::{transform_numeric_range, transform_single_hostspec, HostSpec, ParseError};

fn spec(prefix: &str, start: u64, end: u64) -> HostSpec {
    HostSpec { prefix: prefix.into(), start, end }
}

fn strings(items: &[&str]) -> Vec<String> {
    items.iter().map(|s| s.to_string()).collect()
}

#[test]
fn test_basics() {
    assert_eq!(
        transform_single_hostspec("host[1234]"),
        Ok(vec![HostSpec { start: 1234, end: 1234, prefix: "host".into() }])
    );
    assert_eq!(
        transform_single_hostspec("host[10-100,500]"),
        Ok(vec![
            HostSpec { start: 10, end: 100, prefix: "host".into() },
            HostSpec { start: 500, end: 500, prefix: "host".into() },
        ])
    );
    assert_eq!(
        transform_single_hostspec("xxx[1,2]"),
        Ok(vec![
            HostSpec { start: 1, end: 1, prefix: "xxx".into() },
            HostSpec { start: 2, end: 2, prefix: "xxx".into() },
        ])
    );
}

#[test]
fn single_element_bracket() {
    assert_eq!(expand_expression("host[5]"), Ok(strings(&["host5"])));
}

#[test]
fn range_and_single_counts() {
    let hosts = expand_expression("host[10-100,500]").unwrap();
    assert_eq!(hosts.len(), 92);
    assert_eq!(hosts[0], "host10");
    assert_eq!(hosts[90], "host100");
    assert_eq!(hosts[91], "host500");
    for (i, h) in hosts[..91].iter().enumerate() {
        assert_eq!(*h, format!("host{}", 10 + i));
    }
}

#[test]
fn comma_list_of_singles() {
    assert_eq!(expand_expression("xxx[1,2]"), Ok(strings(&["xxx1", "xxx2"])));
}

#[test]
fn comma_list_keeps_listed_order() {
    assert_eq!(
        expand_expression("n[7,1-3,0]"),
        Ok(strings(&["n7", "n1", "n2", "n3", "n0"]))
    );
}

#[test]
fn inverted_range_is_empty() {
    assert_eq!(transform_single_hostspec("host[100-10]"), Ok(vec![spec("host", 100, 10)]));
    assert_eq!(expand_expression("host[100-10]"), Ok(vec![]));
    assert_eq!(expand_expression("host[5-4,2]"), Ok(strings(&["host2"])));
}

#[test]
fn range_length_matches_bounds() {
    assert_eq!(expand_expression("h[3-5]"), Ok(strings(&["h3", "h4", "h5"])));
    assert_eq!(expand_expression("h[4-4]").unwrap().len(), 1);
    assert_eq!(expand_expression("[0-9]").unwrap().len(), 10);
}

#[test]
fn trailing_characters_fail() {
    assert_eq!(transform_single_hostspec("host[1234]foo"), Err(ParseError::ExtraStuff));
    let out = expand_expressions(&strings(&["a[1]", "host[1234]foo"]));
    assert_eq!(out.hosts, strings(&["a1"]));
    assert_eq!(out.failure, Some((1, ParseError::ExtraStuff)));
}

#[test]
fn trailing_characters_checked_before_numbers() {
    assert_eq!(transform_single_hostspec("host[abc]x"), Err(ParseError::ExtraStuff));
}

#[test]
fn missing_close_bracket_fails() {
    assert_eq!(transform_single_hostspec("host[1-"), Err(ParseError::NoRange));
    assert_eq!(expand_expression("host[1-"), Err(ParseError::NoRange));
}

#[test]
fn non_numeric_range_fails() {
    assert_eq!(
        transform_single_hostspec("host[abc]"),
        Err(ParseError::BadNumbers(NumError::InvalidDigit))
    );
}

#[test]
fn empty_fragments_fail() {
    assert_eq!(transform_single_hostspec("host[]"), Err(ParseError::BadNumbers(NumError::Empty)));
    assert_eq!(transform_single_hostspec("host[1,]"), Err(ParseError::BadNumbers(NumError::Empty)));
    assert_eq!(transform_single_hostspec("host[-3]"), Err(ParseError::BadNumbers(NumError::Empty)));
}

#[test]
fn first_failing_fragment_decides() {
    assert_eq!(
        transform_single_hostspec("h[1,x,99999999999999999999]"),
        Err(ParseError::BadNumbers(NumError::InvalidDigit))
    );
    assert_eq!(
        transform_single_hostspec("h[99999999999999999999,x]"),
        Err(ParseError::BadNumbers(NumError::PosOverflow))
    );
}

#[test]
fn overflow_fails() {
    assert_eq!(
        transform_single_hostspec("host[18446744073709551616]"),
        Err(ParseError::BadNumbers(NumError::PosOverflow))
    );
    assert_eq!(
        expand_expression("host[18446744073709551615]"),
        Ok(strings(&["host18446744073709551615"]))
    );
}

#[test]
fn largest_range_end_terminates() {
    assert_eq!(
        expand_expression("h[18446744073709551614-18446744073709551615]"),
        Ok(strings(&["h18446744073709551614", "h18446744073709551615"]))
    );
}

#[test]
fn pipeline_skips_empty_and_keeps_positions() {
    let out = expand_expressions(&strings(&["good[1]", "", "bad[1-"]));
    assert_eq!(out.hosts, strings(&["good1"]));
    assert_eq!(out.failure, Some((2, ParseError::NoRange)));
}

#[test]
fn pipeline_success_concatenates_in_order() {
    let out = expand_expressions(&strings(&["b[2-3]", "", "a1", "c[0]"]));
    assert_eq!(out.hosts, strings(&["b2", "b3", "a1", "c0"]));
    assert_eq!(out.failure, None);
    let none = expand_expressions(&Vec::new());
    assert!(none.hosts.is_empty());
    assert_eq!(none.failure, None);
}

#[test]
fn pipeline_stops_at_first_failure() {
    let out = expand_expressions(&strings(&["x[1]", "y[z]", "w[1"]));
    assert_eq!(out.hosts, strings(&["x1"]));
    assert_eq!(out.failure, Some((1, ParseError::BadNumbers(NumError::InvalidDigit))));
}

#[test]
fn rerun_gives_identical_output() {
    let items = strings(&["h[3,1-2]", "", "k9", "z[x"]);
    let first = expand_expressions(&items);
    let second = expand_expressions(&items);
    assert_eq!(first.hosts, second.hosts);
    assert_eq!(first.failure, second.failure);
    assert_eq!(first.hosts, strings(&["h3", "h1", "h2", "k9"]));
}

#[test]
fn bare_number_expands_to_itself() {
    assert_eq!(expand_expression("web12"), Ok(strings(&["web12"])));
    assert_eq!(expand_expression("42"), Ok(strings(&["42"])));
    assert_eq!(HostSpec::from_single("db3"), Ok(spec("db", 3, 3)));
}

#[test]
fn bare_number_loses_zero_padding() {
    assert_eq!(HostSpec::from_single("host05"), Ok(spec("host", 5, 5)));
    assert_eq!(expand_expression("host05"), Ok(strings(&["host5"])));
}

#[test]
fn bare_without_digits_fails() {
    assert_eq!(HostSpec::from_single("host"), Err(ParseError::BadNumbers(NumError::Empty)));
    assert_eq!(transform_single_hostspec(""), Err(ParseError::BadNumbers(NumError::Empty)));
    assert_eq!(
        transform_single_hostspec("a99999999999999999999"),
        Err(ParseError::BadNumbers(NumError::PosOverflow))
    );
}

#[test]
fn numeric_range_fragments() {
    assert_eq!(transform_numeric_range("10-100"), Ok((10, 100)));
    assert_eq!(transform_numeric_range("500"), Ok((500, 500)));
    assert_eq!(transform_numeric_range("1-2-3"), Err(NumError::InvalidDigit));
    assert_eq!(transform_numeric_range("1-"), Err(NumError::Empty));
    assert_eq!(transform_numeric_range("+4-+6"), Err(NumError::InvalidDigit));
    assert_eq!(transform_numeric_range("007-010"), Ok((7, 10)));
}

#[test]
fn parse_unsigned_digits_only() {
    assert_eq!(parse_u64(""), Err(NumError::Empty));
    assert_eq!(parse_u64("+"), Err(NumError::InvalidDigit));
    assert_eq!(parse_u64("-"), Err(NumError::InvalidDigit));
    assert_eq!(parse_u64("+7"), Err(NumError::InvalidDigit));
    assert_eq!(parse_u64("-7"), Err(NumError::InvalidDigit));
    assert_eq!(parse_u64("12a"), Err(NumError::InvalidDigit));
    assert_eq!(parse_u64("1 "), Err(NumError::InvalidDigit));
    assert_eq!(parse_u64("0"), Ok(0));
    assert_eq!(parse_u64("007"), Ok(7));
    assert_eq!(parse_u64("18446744073709551615"), Ok(u64::MAX));
    assert_eq!(parse_u64("18446744073709551616"), Err(NumError::PosOverflow));
}

#[test]
fn signed_fragment_fails() {
    assert_eq!(
        transform_single_hostspec("host[+5]"),
        Err(ParseError::BadNumbers(NumError::InvalidDigit))
    );
}

#[test]
fn leading_zeros_in_range() {
    assert_eq!(
        expand_expression("host[007-010]"),
        Ok(strings(&["host7", "host8", "host9", "host10"]))
    );
}

#[test]
fn decimal_text() {
    for n in [0u64, 9, 10, 99, 100, 12345, u64::MAX] {
        let mut s = String::from("p");
        push_decimal(&mut s, n);
        assert_eq!(s, format!("p{}", n));
    }
}

#[test]
fn cursor_hands_out_names_lazily() {
    let h = spec("n", 8, 10);
    let mut it: HostIter = h.iter();
    assert_eq!(it.next(), Some("n8".to_string()));
    assert_eq!(it.next(), Some("n9".to_string()));
    assert_eq!(it.next(), Some("n10".to_string()));
    assert_eq!(it.next(), None);
    assert_eq!(it.next(), None);
    let mut again = h.iter();
    assert_eq!(again.next(), Some("n8".to_string()));
    let mut empty = spec("n", 3, 2).iter();
    assert_eq!(empty.next(), None);
}

#[test]
fn expand_into_appends() {
    let mut out = strings(&["first"]);
    spec("r", 1, 2).expand_into(&mut out);
    assert_eq!(out, strings(&["first", "r1", "r2"]));
    assert_eq!(spec("q", 0, 0).expand(), strings(&["q0"]));
}
