use source_map::{FileSystem, MapFileStore, NoPathMap, SourceId, WithPathMap};

#[test]
fn handles_are_dense_and_start_at_one() {
    let mut fs = MapFileStore::<NoPathMap>::default();
    let a = fs.new_source_id("a".to_string(), "aaa".to_string());
    let b = fs.new_source_id("b".to_string(), "bbb".to_string());
    assert_eq!(a, SourceId(1));
    assert_eq!(b, SourceId(2));
    assert_eq!(fs.get_file_content(a), "aaa");
    assert_eq!(fs.get_file_path(b), "b");
}

#[test]
fn whole_span_covers_content() {
    let mut fs = MapFileStore::<NoPathMap>::default();
    let id = fs.new_source_id("a".to_string(), "one\ntwo".to_string());
    let span = fs.get_file_whole_span(id);
    assert_eq!(span.start, 0);
    assert_eq!(span.end, 7);
    assert_eq!(span.source, id);
}

#[test]
fn update_file_recomputes_line_starts() {
    let mut fs = MapFileStore::<NoPathMap>::default();
    let id = fs.new_source_id("a".to_string(), "one\ntwo".to_string());
    fs.update_file(id, "a\nb\nc".to_string());
    assert_eq!(fs.get_file_content(id), "a\nb\nc");
    assert_eq!(fs.get_line_starts(id).0, vec![0, 2, 4]);
}

#[test]
fn append_to_file_returns_old_and_new_length() {
    let mut fs = MapFileStore::<NoPathMap>::default();
    let id = fs.new_source_id("a".to_string(), "x".to_string());
    let (old_length, new_length) = fs.append_to_file(id, "y\nz");
    assert_eq!((old_length, new_length), (1, 4));
    assert_eq!(fs.get_file_content(id), "xy\nz");
    assert_eq!(fs.get_line_starts(id).0, vec![0, 3]);
}

#[test]
fn path_map_finds_sources() {
    let mut fs = MapFileStore::<WithPathMap>::default();
    assert_eq!(fs.get_source_at_path("a.txt"), None);
    fs.create_or_update_file_at_path("a.txt", "first".to_string());
    let id = fs.get_source_at_path("a.txt").unwrap();
    assert_eq!(fs.get_file_content(id), "first");

    fs.create_or_update_file_at_path("a.txt", "second".to_string());
    assert_eq!(fs.get_source_at_path("a.txt").unwrap(), id);
    assert_eq!(fs.get_file_content(id), "second");

    fs.update_file_at_path("a.txt", "third".to_string());
    assert_eq!(fs.get_file_content(id), "third");
}

#[test]
fn change_file_path_moves_the_entry() {
    let mut fs = MapFileStore::<WithPathMap>::default();
    fs.create_or_update_file_at_path("from.txt", "body".to_string());
    let id = fs.get_source_at_path("from.txt").unwrap();
    fs.change_file_path("from.txt", "to.txt".to_string());
    assert_eq!(fs.get_source_at_path("from.txt"), None);
    assert_eq!(fs.get_source_at_path("to.txt"), Some(id));
    assert_eq!(fs.get_file_path(id), "to.txt");
    assert_eq!(fs.get_file_content(id), "body");
}

#[test]
fn source_id_new_registers() {
    let mut fs = MapFileStore::<NoPathMap>::default();
    let id = SourceId::new(&mut fs, "n.txt".to_string(), "n".to_string());
    let (path, content) = fs.get_file_path_and_content(id);
    assert_eq!(path, "n.txt");
    assert_eq!(content, "n");
}

#[test]
fn count_characters_on_last_line() {
    assert_eq!(source_map::count_characters_on_last_line(""), 0);
    assert_eq!(source_map::count_characters_on_last_line("abc"), 3);
    assert_eq!(source_map::count_characters_on_last_line("abc\n"), 0);
    assert_eq!(source_map::count_characters_on_last_line("abc\nde"), 2);
}
