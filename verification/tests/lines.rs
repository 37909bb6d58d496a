use source_map::LineStarts;

const SOURCE: &str = "first line\nsecond, longer line\n\nfourth after an empty one\nlast line without newline";

#[test]
fn split_lines() {
    let line_starts = LineStarts::new(SOURCE);
    let expected_lines = SOURCE.lines().collect::<Vec<_>>();
    let mut actual_lines = Vec::new();

    let mut iterator = line_starts.0.clone().into_iter();
    let mut last = iterator.next().unwrap();
    for part in iterator {
        let value = &SOURCE[last..part];
        let value = value.strip_suffix('\n').unwrap();
        actual_lines.push(value);
        last = part;
    }
    actual_lines.push(&SOURCE[last..]);

    assert_eq!(expected_lines, actual_lines);
}

#[test]
fn append() {
    let whole = LineStarts::new(SOURCE);
    let at = 20;
    let (left, right) = SOURCE.split_at(at);

    let mut left = LineStarts::new(left);
    left.append(at, right);

    assert_eq!(whole.0, left.0);
}

#[test]
fn byte_indexes_crosses_lines() {
    let line_starts = LineStarts::new(SOURCE);

    let start = 3;
    let end = 40;
    let lines_in_between = SOURCE[start..end].chars().filter(|c| *c == '\n').count();

    assert_eq!(line_starts.byte_indexes_crosses_lines(start, end), lines_in_between);
}

#[test]
fn byte_indexes_on_same_line() {
    let line_starts = LineStarts::new(SOURCE);

    assert!(line_starts.byte_indexes_on_same_line(11, 29));
    assert!(!line_starts.byte_indexes_on_same_line(3, 40));
    assert!(!line_starts.byte_indexes_on_different_lines(11, 29));
    assert!(line_starts.byte_indexes_on_different_lines(3, 40));
}

#[test]
fn line_and_column() {
    let line_starts = LineStarts::new(SOURCE);
    assert_eq!(line_starts.get_line_and_column_pos_is_on(0), (0, 0));
    assert_eq!(line_starts.get_line_and_column_pos_is_on(11), (1, 0));
    assert_eq!(line_starts.get_line_and_column_pos_is_on(14), (1, 3));
    assert_eq!(line_starts.get_line_and_column_pos_is_on(30), (1, 19));
    assert_eq!(line_starts.get_line_and_column_pos_is_on(31), (2, 0));
}

#[test]
fn line_starts_strictly_increase() {
    let line_starts = LineStarts::new(SOURCE);
    assert_eq!(line_starts.0[0], 0);
    for w in line_starts.0.windows(2) {
        assert!(w[0] < w[1]);
    }
}
