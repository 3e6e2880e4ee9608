use schrom::text::byte_is_space;
use schrom::text::parse_field;
use schrom::text::parse_number;
use schrom::text::same_bytes;
use schrom::text::split_fields;
use schrom::text::split_tag;
use schrom::text::Span;

fn span(start: usize, end: usize) -> Span {
    Span { start, end }
}

#[test]
fn fields_are_the_runs_between_white_space() {
    assert_eq!(split_fields(b"chr1\t100  200 ACGT-1\n"), vec![span(0, 4), span(5, 8), span(10, 13), span(14, 20)]);
    assert_eq!(split_fields(b"  a"), vec![span(2, 3)]);
    assert_eq!(split_fields(b"a"), vec![span(0, 1)]);
    assert_eq!(split_fields(b""), Vec::<Span>::new());
    assert_eq!(split_fields(b" \t\r\n\x0b\x0c"), Vec::<Span>::new());
}

#[test]
fn white_space_is_blank_and_tab_to_carriage_return() {
    for b in 0..=255u8 {
        assert_eq!(byte_is_space(b), b == b' ' || (9..=13).contains(&b));
    }
}

#[test]
fn numbers_are_decimal_digits_after_an_optional_plus() {
    assert_eq!(parse_number(b"0", 10), Some(0));
    assert_eq!(parse_number(b"007", 10), Some(7));
    assert_eq!(parse_number(b"+42", 100), Some(42));
    assert_eq!(parse_number(b"4294967295", 0xffff_ffff), Some(4_294_967_295));
    assert_eq!(parse_number(b"18446744073709551615", u64::MAX), Some(u64::MAX));
}

#[test]
fn what_is_no_number_is_refused() {
    assert_eq!(parse_number(b"", 10), None);
    assert_eq!(parse_number(b"+", 10), None);
    assert_eq!(parse_number(b"-1", 10), None);
    assert_eq!(parse_number(b"++1", 10), None);
    assert_eq!(parse_number(b"1+", 10), None);
    assert_eq!(parse_number(b"12a", 1000), None);
    assert_eq!(parse_number(b" 1", 10), None);
    assert_eq!(parse_number(b"1.5", 10), None);
}

#[test]
fn numbers_over_the_maximum_are_refused() {
    assert_eq!(parse_number(b"11", 10), None);
    assert_eq!(parse_number(b"10", 10), Some(10));
    assert_eq!(parse_number(b"256", 255), None);
    assert_eq!(parse_number(b"255", 255), Some(255));
    assert_eq!(parse_number(b"4294967296", 0xffff_ffff), None);
    assert_eq!(parse_number(b"18446744073709551616", u64::MAX), None);
    assert_eq!(parse_number(b"99999999999999999999999", u64::MAX), None);
    assert_eq!(parse_number(b"3", 2), None);
    assert_eq!(parse_number(b"0", 0), Some(0));
}

#[test]
fn a_field_is_read_in_its_place() {
    let line = b"chr1 100 200";
    assert_eq!(parse_field(line, span(5, 8), 1000), Some(100));
    assert_eq!(parse_field(line, span(9, 12), 1000), Some(200));
    assert_eq!(parse_field(line, span(0, 4), 1000), None);
    assert_eq!(parse_field(line, span(4, 4), 1000), None);
}

#[test]
fn a_tag_is_split_at_its_dashes() {
    assert_eq!(split_tag(b"x ACGT-1", span(2, 8)), Some((span(2, 6), span(7, 8))));
    assert_eq!(split_tag(b"ACGT-12-zz", span(0, 10)), Some((span(0, 4), span(5, 7))));
    assert_eq!(split_tag(b"-1", span(0, 2)), Some((span(0, 0), span(1, 2))));
    assert_eq!(split_tag(b"ACGT-", span(0, 5)), Some((span(0, 4), span(5, 5))));
    assert_eq!(split_tag(b"ACGT", span(0, 4)), None);
    assert_eq!(split_tag(b"", span(0, 0)), None);
}

#[test]
fn bytes_are_compared_whole() {
    assert!(same_bytes(b"abc", b"abc"));
    assert!(same_bytes(b"", b""));
    assert!(!same_bytes(b"abc", b"abd"));
    assert!(!same_bytes(b"abc", b"ab"));
}
