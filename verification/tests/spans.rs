use source_map::{
    End, FileSystem, LineColumnPosition, LineColumnSpan, MapFileStore, NoPathMap, Nullable,
    Position, Span, SpanWithSource, Start, Utf8,
};

const SOURCE: &str = "Hello World
I am a paragraph over two lines
Another line";

fn get_file_system_and_source() -> (MapFileStore<NoPathMap>, source_map::SourceId) {
    let mut fs = MapFileStore::default();
    let source = fs.new_source_id("".into(), SOURCE.into());
    (fs, source)
}

#[test]
fn scalar_span_to_line_column() {
    let (fs, source) = get_file_system_and_source();

    let paragraph_span = SpanWithSource { start: 19, end: 28, source };

    assert_eq!(&SOURCE[paragraph_span.start as usize..paragraph_span.end as usize], "paragraph");
    assert_eq!(
        paragraph_span.into_line_column_span::<Utf8, _>(&fs),
        LineColumnSpan {
            line_start: 1,
            column_start: 7,
            line_end: 1,
            column_end: 16,
            encoding: Utf8,
            source
        }
    );
}

#[test]
fn scalar_position_to_line_column() {
    let (fs, source) = get_file_system_and_source();

    let l_of_line_position = Position(52, source);
    assert_eq!(&SOURCE[l_of_line_position.0 as usize..], "line");

    assert_eq!(
        l_of_line_position.into_line_column_position::<Utf8, _>(&fs),
        LineColumnPosition { line: 2, column: 8, encoding: Utf8, source }
    );
}

#[test]
fn line_column_position_to_position() {
    let (fs, source) = get_file_system_and_source();
    let start_of_another_position = LineColumnPosition { line: 2, column: 0, source, encoding: Utf8 };
    assert_eq!(start_of_another_position.into_scalar_position(&fs), Position(44, source));
}

#[test]
fn line_column_span_to_span() {
    let (fs, source) = get_file_system_and_source();
    let line_another_span = LineColumnSpan {
        line_start: 1,
        column_start: 26,
        line_end: 2,
        column_end: 12,
        source,
        encoding: Utf8,
    };

    let line_another_span = line_another_span.into_scalar_span(&fs);
    assert_eq!(
        &SOURCE[line_another_span.start as usize..line_another_span.end as usize],
        "lines\nAnother line"
    );
}

#[test]
fn position_round_trip_multibyte() {
    let mut fs = MapFileStore::<NoPathMap>::default();
    let content = "caf\u{e9}\nth\u{e9}\u{e2}tre";
    let source = fs.new_source_id("m.txt".into(), content.into());
    for p in [0u32, 3, 5, 6, 8, 10, 12] {
        assert!(content.is_char_boundary(p as usize));
        let lc = Position(p, source).into_line_column_position::<Utf8, _>(&fs);
        assert_eq!(lc.into_scalar_position(&fs), Position(p, source));
    }
}

#[test]
fn span_helpers() {
    let a = Span { start: 1, end: 4, source: () };
    let b = Span { start: 4, end: 9, source: () };
    assert!(a.is_adjacent_to(b.get_start()));
    assert!(a.get_end().is_adjacent_to(Start::new(4)));
    let joined = a.union(End::new(9));
    assert_eq!(joined.start, 1);
    assert_eq!(joined.end, 9);
    let from_start = Start::new(1).union(b.get_end());
    assert_eq!(from_start.end, 9);
    assert_eq!(Start::new(2).with_length(3).end, 5);
    assert_eq!(Start::new(2).get_end_after(3).0, 5);
}

#[test]
fn null_values() {
    let null_span: SpanWithSource = Nullable::null();
    assert!(null_span.is_null());
    assert_eq!(null_span.source, source_map::SourceId(0));
    let real = Span { start: 0, end: 1, source: () }.with_source(source_map::SourceId(2));
    assert!(!real.is_null());
    assert_eq!(real.without_source().end, 1);
}

#[test]
fn ordering() {
    let s = |start: u32, end: u32| Span { start, end, source: () };
    let sorted = source_map::sort_spans(vec![s(5, 9), s(1, 2), s(10, 12), s(2, 5)]);
    assert_eq!(sorted, vec![s(1, 2), s(2, 5), s(5, 9), s(10, 12)]);
}
