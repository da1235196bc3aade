use books::catalog::{Book, Books, ErrorKind, ParseError, Time};
use books::catalog::parse_time;

fn book(name: &str, start: u16, end: u16) -> Book {
    Book {
        name: name.into(),
        time: Time { start, end },
        isbn: None,
        pages: None,
        genre: None,
        author: None,
    }
}

#[test]
pub fn manual_test() {
    let s = "
The Player of Games				2017
    Genre: Science Fiction
    Pages: 466
    Author: Iain Banks

Accelerando					2017-2018
    Genre: Science Fiction
    Pages: 621
    Author: Charles Stross
";

    let result = Books::parse(s).unwrap();

    let b1 = Book {
        name: "The Player of Games".into(),
        time: Time {
            start: 2017,
            end: 2017,
        },
        isbn: None,
        pages: Some(466),
        genre: Some("Science Fiction".into()),
        author: Some("Iain Banks".into()),
    };
    let b2 = Book {
        name: "Accelerando".into(),
        time: Time {
            start: 2017,
            end: 2018,
        },
        isbn: None,
        pages: Some(621),
        genre: Some("Science Fiction".into()),
        author: Some("Charles Stross".into()),
    };

    let expect = vec![b1, b2];

    assert_eq!(result.inner, expect);
    assert!(result.warnings.is_empty());
}

#[test]
fn single_year_and_ranges() {
    assert_eq!(parse_time("2020"), Some(Time { start: 2020, end: 2020 }));
    assert_eq!(parse_time("2020-2021"), Some(Time { start: 2020, end: 2021 }));
    assert_eq!(parse_time("2020 - 2021"), Some(Time { start: 2020, end: 2021 }));
    assert_eq!(parse_time(" 1999 "), Some(Time { start: 1999, end: 1999 }));
}

#[test]
fn malformed_years() {
    assert_eq!(parse_time(""), None);
    assert_eq!(parse_time("twenty"), None);
    assert_eq!(parse_time("2020-"), None);
    assert_eq!(parse_time("-2020"), None);
    assert_eq!(parse_time("2017-2018-2019"), None);
    assert_eq!(parse_time("65535"), Some(Time { start: 65535, end: 65535 }));
    assert_eq!(parse_time("65536"), None);
}

#[test]
fn titles_keep_their_order() {
    let r = Books::parse("Zeta\t2001\nAlpha\t2002\nMid    2003\n").unwrap();
    assert_eq!(
        r.inner,
        vec![book("Zeta", 2001, 2001), book("Alpha", 2002, 2002), book("Mid", 2003, 2003)]
    );
}

#[test]
fn duplicate_titles_stay_separate() {
    let r = Books::parse("Same\t2001\nSame\t2001").unwrap();
    assert_eq!(r.inner, vec![book("Same", 2001, 2001), book("Same", 2001, 2001)]);
}

#[test]
fn later_value_wins() {
    let r = Books::parse("A\t2000\n  Genre: Old\n  Pages: 10\n  Genre: New\n  Pages: 20\n").unwrap();
    assert_eq!(r.inner.len(), 1);
    assert_eq!(r.inner[0].genre, Some("New".to_string()));
    assert_eq!(r.inner[0].pages, Some(20));
}

#[test]
fn unknown_key_is_a_warning() {
    let with = Books::parse("A\t2000\n  Foo: bar\n  Author: X\n").unwrap();
    let without = Books::parse("A\t2000\n  Author: X\n").unwrap();
    assert_eq!(with.inner, without.inner);
    assert_eq!(with.warnings.len(), 1);
    assert_eq!(with.warnings[0].line, 2);
    assert_eq!(with.warnings[0].text, "Foo: bar");
    assert!(without.warnings.is_empty());
}

#[test]
fn unknown_key_before_any_title() {
    let r = Books::parse("Foo: bar\nA\t2000\n").unwrap();
    assert_eq!(r.inner, vec![book("A", 2000, 2000)]);
    assert_eq!(r.warnings.len(), 1);
    assert_eq!(r.warnings[0].line, 1);
}

#[test]
fn blank_lines_are_ignored() {
    let spaced = Books::parse("\n\nA\t2000\n  Isbn: 1\n\n   \n\t\n\nB\t2001\n  Isbn: 2\n\n").unwrap();
    let tight = Books::parse("A\t2000\n  Isbn: 1\nB\t2001\n  Isbn: 2").unwrap();
    assert_eq!(spaced.inner, tight.inner);
    assert_eq!(spaced.inner.len(), 2);
    assert_eq!(spaced.inner[1].isbn, Some("2".to_string()));
}

#[test]
fn title_without_metadata_has_no_fields() {
    let r = Books::parse("A\t2000\nB\t2001\n  Pages: 3\nC\t2002").unwrap();
    assert_eq!(r.inner[0], book("A", 2000, 2000));
    assert_eq!(r.inner[1].pages, Some(3));
    assert_eq!(r.inner[2], book("C", 2002, 2002));
}

#[test]
fn empty_input_gives_empty_catalog() {
    let r = Books::parse("").unwrap();
    assert!(r.inner.is_empty());
    assert!(r.warnings.is_empty());
}

#[test]
fn keys_ignore_case_and_keep_inner_colons() {
    let r = Books::parse("A\t2000\n  ISBN: 978:0:1\n  author:Someone  \n  gEnRe :x\n").unwrap();
    assert_eq!(r.inner[0].isbn, Some("978:0:1".to_string()));
    assert_eq!(r.inner[0].author, Some("Someone".to_string()));
    assert_eq!(r.inner[0].genre, None);
    assert_eq!(r.warnings.len(), 1);
}

#[test]
fn title_splits_on_tab_or_four_spaces() {
    let r = Books::parse("Two  Words   Here    1990\nTabbed\t\t\t1991-1992\r\n").unwrap();
    assert_eq!(r.inner[0], book("Two  Words   Here", 1990, 1990));
    assert_eq!(r.inner[1], book("Tabbed", 1991, 1992));
}

#[test]
fn pages_accepts_a_plus_sign() {
    let r = Books::parse("A\t2000\n  Pages: +12").unwrap();
    assert_eq!(r.inner[0].pages, Some(12));
}

#[test]
fn metadata_before_title_is_an_error() {
    let e = Books::parse("\n  Genre: X\nA\t2000").unwrap_err();
    assert_eq!(e, ParseError { line: 2, kind: ErrorKind::MissingCurrentBook });
}

#[test]
fn malformed_pages_is_an_error() {
    let e = Books::parse("A\t2000\n  Pages: many").unwrap_err();
    assert_eq!(e, ParseError { line: 2, kind: ErrorKind::MalformedPages });
    let e = Books::parse("A\t2000\n  Pages: -3").unwrap_err();
    assert_eq!(e.kind, ErrorKind::MalformedPages);
    let e = Books::parse("A\t2000\n  Pages: 99999999999999999999999").unwrap_err();
    assert_eq!(e.kind, ErrorKind::MalformedPages);
}

#[test]
fn malformed_year_is_an_error() {
    let e = Books::parse("A\t2000\nNo year here").unwrap_err();
    assert_eq!(e, ParseError { line: 2, kind: ErrorKind::MalformedYear });
    let e = Books::parse("A   2000").unwrap_err();
    assert_eq!(e.kind, ErrorKind::MalformedYear);
    let e = Books::parse("A\tabc").unwrap_err();
    assert_eq!(e.kind, ErrorKind::MalformedYear);
}

#[test]
fn unicode_whitespace_is_trimmed() {
    let r = Books::parse("\u{a0}Title\t2000\u{3000}\n\u{2003}Author:\u{a0}Someone\u{205f}\n").unwrap();
    assert_eq!(r.inner[0].name, "Title");
    assert_eq!(r.inner[0].author, Some("Someone".to_string()));
}
