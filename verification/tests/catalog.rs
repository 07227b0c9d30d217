use movie_catalog::parse::disc_number;
use movie_catalog::parse::parse_catalog;
use movie_catalog::parse::parse_movie;
use movie_catalog::record::Movie;

fn fields(m: &Movie) -> (u32, &str, &str, Option<&str>) {
    (m.disc, m.year.as_str(), m.title.as_str(), m.remark.as_deref())
}

#[test]
fn empty_document_yields_no_records() {
    assert!(parse_catalog("").is_empty());
}

#[test]
fn blank_lines_yield_no_records() {
    assert!(parse_catalog("\n   \n\t\n  \r\n").is_empty());
}

#[test]
fn disc_number_parses_digits_and_period() {
    assert_eq!(disc_number("12."), Some(12));
    assert_eq!(disc_number("0."), Some(0));
    assert_eq!(disc_number("007."), Some(7));
}

#[test]
fn disc_number_rejects_other_shapes() {
    assert_eq!(disc_number(""), None);
    assert_eq!(disc_number("."), None);
    assert_eq!(disc_number("12"), None);
    assert_eq!(disc_number("1.2."), None);
    assert_eq!(disc_number("a1."), None);
    assert_eq!(disc_number("12. "), None);
}

#[test]
fn disc_number_overflow_is_a_non_match() {
    assert_eq!(disc_number("99999999999999999999."), None);
    assert_eq!(disc_number("4294967295."), Some(4294967295));
    assert_eq!(disc_number("4294967296."), None);
}

#[test]
fn separator_sets_disc_for_following_movies() {
    let ms = parse_catalog("12.\n2001Foo\n2002Bar\n3.\n2003Baz");
    assert_eq!(ms.len(), 3);
    assert_eq!(fields(&ms[0]), (12, "2001", "Foo", None));
    assert_eq!(fields(&ms[1]), (12, "2002", "Bar", None));
    assert_eq!(fields(&ms[2]), (3, "2003", "Baz", None));
}

#[test]
fn movies_before_any_separator_carry_disc_zero() {
    let ms = parse_catalog("2001Foo\n1.\n2002Bar");
    assert_eq!(ms.len(), 2);
    assert_eq!(ms[0].disc, 0);
    assert_eq!(ms[1].disc, 1);
}

#[test]
fn plain_movie_line_without_marker() {
    let ms = parse_catalog("2001Some Title");
    assert_eq!(ms.len(), 1);
    assert_eq!(fields(&ms[0]), (0, "2001", "Some Title", None));
}

#[test]
fn movie_line_with_marker() {
    let ms = parse_catalog("1999Kids Movie 儿童");
    assert_eq!(ms.len(), 1);
    assert_eq!(fields(&ms[0]), (0, "1999", "Kids Movie", Some("儿童")));
}

#[test]
fn lines_without_four_leading_digits_yield_no_record() {
    assert!(parse_catalog("abc Movie").is_empty());
    assert!(parse_catalog("99 Movie").is_empty());
    assert!(parse_catalog("199x Movie").is_empty());
}

#[test]
fn parse_movie_directly() {
    let m = parse_movie(5, "2001Some Title").unwrap();
    assert_eq!(fields(&m), (5, "2001", "Some Title", None));
    assert!(parse_movie(5, "abc Movie").is_none());
    assert!(parse_movie(5, "99 Movie").is_none());
}

#[test]
fn year_only_line_has_empty_title() {
    let m = parse_movie(1, "1999").unwrap();
    assert_eq!(fields(&m), (1, "1999", "", None));
}

#[test]
fn marker_right_after_year_leaves_empty_title() {
    let m = parse_movie(1, "1999儿童").unwrap();
    assert_eq!(fields(&m), (1, "1999", "", Some("儿童")));
}

#[test]
fn marker_is_stripped_even_when_title_ends_in_it() {
    let m = parse_movie(0, "2000儿童电影 儿童").unwrap();
    assert_eq!(fields(&m), (0, "2000", "儿童电影", Some("儿童")));
}

#[test]
fn overflowing_separator_falls_through_to_movie_parser() {
    let ms = parse_catalog("99999999999999999999.");
    assert_eq!(ms.len(), 1);
    assert_eq!(fields(&ms[0]), (0, "9999", "9999999999999999.", None));
}

#[test]
fn lines_are_trimmed_before_classification() {
    let ms = parse_catalog("  3.  \n\t2001  Padded Title \t");
    assert_eq!(ms.len(), 1);
    assert_eq!(fields(&ms[0]), (3, "2001", "Padded Title", None));
}

#[test]
fn carriage_returns_are_trimmed_away() {
    let ms = parse_catalog("2001A\r\n2002B\r");
    assert_eq!(ms.len(), 2);
    assert_eq!(fields(&ms[0]), (0, "2001", "A", None));
    assert_eq!(fields(&ms[1]), (0, "2002", "B", None));
}

#[test]
fn order_follows_the_document() {
    let text = "junk\n2001First\n1.\nnoise here\n2002Second\n2.\n2003Third\n99 no\n2004Fourth";
    let ms = parse_catalog(text);
    let titles: Vec<&str> = ms.iter().map(|m| m.title.as_str()).collect();
    assert_eq!(titles, vec!["First", "Second", "Third", "Fourth"]);
    let discs: Vec<u32> = ms.iter().map(|m| m.disc).collect();
    assert_eq!(discs, vec![0, 1, 2, 2]);
}

#[test]
fn reparsing_the_same_text_gives_the_same_list() {
    let text = "1.\n2001Foo 儿童\nx\n2002Bar";
    let a = parse_catalog(text);
    let b = parse_catalog(text);
    assert_eq!(a.len(), b.len());
    for (x, y) in a.iter().zip(b.iter()) {
        assert_eq!(fields(x), fields(y));
    }
}
