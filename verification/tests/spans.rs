use agdatex::span_str::{copy_span, Bound, SpanStr};
use agdatex::str_lines::StrLines;

fn forwards(src: &str) -> Vec<(String, usize)> {
    let mut lines = SpanStr::new(src).lines();
    let mut found = Vec::new();
    while let Some(line) = lines.next() {
        found.push((line.as_str().to_owned(), line.span().start));
    }
    found
}

fn backwards(src: &str) -> Vec<(String, usize)> {
    let mut lines = SpanStr::new(src).lines();
    let mut found = Vec::new();
    while let Some(line) = lines.next_back() {
        found.push((line.as_str().to_owned(), line.span().start));
    }
    found
}

#[test]
fn parts_keep_their_place() {
    let s = SpanStr::with_offset("  \u{3bb}x = 1 \t", 10);
    assert_eq!(s.span(), 10..21);
    assert_eq!(s.len(), 11);
    assert!(!s.is_empty());
    assert_eq!(s.trim_start().as_str(), "\u{3bb}x = 1 \t");
    assert_eq!(s.trim_start().span(), 12..21);
    assert_eq!(s.trim().as_str(), "\u{3bb}x = 1");
    assert_eq!(s.trim().span(), 12..19);
    let blank = SpanStr::with_offset(" \u{2003}\n", 3);
    assert_eq!(blank.trim_start().span(), 8..8);
    assert_eq!(blank.trim().span(), 8..8);
    assert!(blank.trim().is_empty());
}

#[test]
fn prefixes_are_stripped() {
    let s = SpanStr::with_offset("--! x", 7);
    let rest = s.strip_prefix("--!").unwrap();
    assert_eq!(rest.as_str(), " x");
    assert_eq!(rest.span(), 10..12);
    assert!(s.strip_prefix("--!!").is_none());
    assert!(s.strip_prefix("--! xy").is_none());
    assert_eq!(s.strip_prefix("").unwrap().span(), 7..12);
}

#[test]
fn strings_are_split() {
    let s = SpanStr::with_offset("\u{3bb}ab>c>", 1);
    let (a, b) = s.split_once(|c| c == '>').unwrap();
    assert_eq!((a.as_str(), a.span()), ("\u{3bb}ab", 1..5));
    assert_eq!((b.as_str(), b.span()), (">c>", 5..8));
    assert!(s.split_once(|c| c == '<').is_none());
}

#[test]
fn parts_by_position() {
    let s = SpanStr::with_offset("a\u{3bb}bc", 5);
    let part = |start, end| {
        let p = s.get(start, end);
        (p.as_str().to_owned(), p.span())
    };
    assert_eq!(
        part(Bound::Unbounded, Bound::Excluded(3)),
        ("a\u{3bb}".to_owned(), 5..8)
    );
    assert_eq!(
        part(Bound::Included(1), Bound::Included(3)),
        ("\u{3bb}b".to_owned(), 6..9)
    );
    assert_eq!(
        part(Bound::Excluded(2), Bound::Unbounded),
        ("bc".to_owned(), 8..10)
    );
    assert_eq!(part(Bound::Included(5), Bound::Unbounded).0, "");
    assert_eq!(s.as_ref(), "a\u{3bb}bc");
    assert_eq!(copy_span(&(3..4)), 3..4);
}

#[test]
fn lines_forwards() {
    assert_eq!(forwards(""), []);
    assert_eq!(
        forwards("ab\r\n\nc"),
        [
            ("ab".to_owned(), 0),
            ("".to_owned(), 3),
            ("c".to_owned(), 3),
        ]
    );
    assert_eq!(forwards("a\r"), [("a\r".to_owned(), 0)]);
    assert_eq!(forwards("a\n"), [("a".to_owned(), 0)]);
}

#[test]
fn lines_backwards() {
    assert_eq!(backwards(""), []);
    assert_eq!(
        backwards("ab\r\n\nc"),
        [
            ("c".to_owned(), 5),
            ("".to_owned(), 4),
            ("ab".to_owned(), 0),
        ]
    );
    assert_eq!(backwards("a\r"), [("a\r".to_owned(), 0)]);
    assert_eq!(backwards("a\r\n"), [("a".to_owned(), 0)]);
}

#[test]
fn lines_from_both_ends() {
    let src = "one\ntwo\r\nthree\n\nfive";
    let mut texts: Vec<_> = backwards(src).into_iter().map(|(line, _)| line).collect();
    texts.reverse();
    assert_eq!(texts, src.lines().collect::<Vec<_>>());
    let texts: Vec<_> = forwards(src).into_iter().map(|(line, _)| line).collect();
    assert_eq!(texts, src.lines().collect::<Vec<_>>());
    let mut lines = SpanStr::new(src).lines();
    assert_eq!(lines.size_hint(), (1, None));
    assert_eq!(lines.last().unwrap().as_str(), "five");
    assert_eq!(lines.next().unwrap().as_str(), "one");
    assert_eq!(lines.next_back().unwrap().as_str(), "five");
    assert_eq!(lines.next().unwrap().as_str(), "two");
    assert_eq!(lines.next_back().unwrap().as_str(), "");
    assert_eq!(lines.next().unwrap().as_str(), "three");
    assert!(lines.next().is_none());
    assert!(lines.next_back().is_none());
    assert_eq!(lines.size_hint(), (0, None));
    assert!(lines.last().is_none());
}

#[test]
fn lines_with_offsets() {
    let src = "ab\r\n\n\u{3bb}x\nend";
    let expected = [("ab", 0), ("", 4), ("\u{3bb}x", 5), ("end", 9)];
    let mut lines = src.line_indices();
    for (text, offset) in expected {
        let line = lines.next().unwrap();
        assert_eq!(line.as_ref() as &str, text);
        assert_eq!(line.offset(), offset);
    }
    assert!(lines.next().is_none());
    let mut lines = src.line_indices();
    assert_eq!(lines.last().unwrap().offset(), 9);
    for (text, offset) in expected.into_iter().rev() {
        let line = lines.next_back().unwrap();
        assert_eq!(&*line, text);
        assert_eq!(line.offset(), offset);
    }
    assert!(lines.next_back().is_none());
    assert_eq!(lines.size_hint(), (0, None));
    assert_eq!(src.line_indices().size_hint(), (1, None));
}
