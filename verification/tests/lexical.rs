use stl_mesh::lexical::{
    is_multispace, skip_run, span_is, span_starts_with, split_words, ByteClass, Span,
};

#[test]
fn whitespace_is_four_bytes() {
    for c in 0..=255u8 {
        assert_eq!(
            is_multispace(c),
            c == b' ' || c == b'\t' || c == b'\n' || c == b'\r'
        );
        assert_eq!(ByteClass::Whitespace.contains(c), is_multispace(c));
        assert_eq!(ByteClass::Text.contains(c), !is_multispace(c));
    }
}

#[test]
fn skip_run_stops_at_the_first_byte_outside() {
    let text = b" \t\n ab \r\n";
    assert_eq!(skip_run(text, 0, ByteClass::Whitespace), 4);
    assert_eq!(skip_run(text, 0, ByteClass::Text), 0);
    assert_eq!(skip_run(text, 4, ByteClass::Text), 6);
    assert_eq!(skip_run(text, 6, ByteClass::Whitespace), 9);
    assert_eq!(skip_run(text, 9, ByteClass::Whitespace), 9);
    assert_eq!(skip_run(text, 12, ByteClass::Whitespace), 12);
}

#[test]
fn split_words_finds_the_runs_of_text() {
    let text = b"  one\ttwo\r\n\nthree ";
    let spans = split_words(text, 0);
    assert_eq!(
        spans,
        vec![
            Span { start: 2, end: 5 },
            Span { start: 6, end: 9 },
            Span { start: 12, end: 17 }
        ]
    );
    assert_eq!(split_words(text, 3).first(), Some(&Span { start: 3, end: 5 }));
    assert!(split_words(b" \t\r\n", 0).is_empty());
    assert!(split_words(b"", 0).is_empty());
    assert!(split_words(text, 40).is_empty());
    assert_eq!(split_words(b"x", 0), vec![Span { start: 0, end: 1 }]);
}

#[test]
fn spans_are_compared_byte_by_byte() {
    let text = b"endsolid name";
    let word = Span { start: 0, end: 8 };
    assert!(span_is(text, word, b"endsolid"));
    assert!(!span_is(text, word, b"endsoli"));
    assert!(!span_is(text, word, b"endsolie"));
    assert!(!span_is(text, word, b"endsolid "));
    assert!(span_starts_with(text, word, b"endsolid"));
    assert!(span_starts_with(text, word, b"end"));
    assert!(span_starts_with(text, word, b""));
    assert!(!span_starts_with(text, word, b"endsolid "));
    assert!(!span_starts_with(text, word, b"ends0"));
    let name = Span { start: 9, end: 13 };
    assert!(span_is(text, name, b"name"));
    assert!(!span_starts_with(text, name, b"end"));
}
