use source_map::{
    FileSystem, MapFileStore, NoPathMap, SourceMapBuilder, SpanWithSource,
};

fn store_with(content: &str) -> (MapFileStore<NoPathMap>, source_map::SourceId) {
    let mut fs = MapFileStore::<NoPathMap>::default();
    let id = fs.new_source_id("f.txt".to_string(), content.to_string());
    (fs, id)
}

#[test]
fn empty_build() {
    let fs = MapFileStore::<NoPathMap>::default();
    let builder = SourceMapBuilder::new();
    let map = builder.build(&fs);
    assert_eq!(map.mappings, "");
    assert_eq!(map.sources.len(), 0);
    assert_eq!(
        map.to_json(&fs),
        "{\"version\":3,\"sourceRoot\":\"\",\"sources\":[],\"sourcesContent\":[],\"names\":[],\"mappings\":\"\"}"
    );
}

#[test]
fn single_char() {
    let (fs, id) = store_with("a");
    let mut builder = SourceMapBuilder::new();
    builder.add_mapping(&SpanWithSource { start: 0, end: 1, source: id }, 0);
    let map = builder.build(&fs);
    assert_eq!(map.mappings, "AAAA");
    assert_eq!(map.sources, vec![id]);
    let json = map.to_json(&fs);
    assert_eq!(
        json,
        "{\"version\":3,\"sourceRoot\":\"\",\"sources\":[\"f.txt\"],\"sourcesContent\":[\"a\"],\"names\":[],\"mappings\":\"AAAA\"}"
    );
}

#[test]
fn cross_line_mapping() {
    let (fs, id) = store_with("A\nB");
    let mut builder = SourceMapBuilder::new();
    builder.add_mapping(&SpanWithSource { start: 0, end: 1, source: id }, 0);
    builder.add_new_line();
    builder.add_mapping(&SpanWithSource { start: 2, end: 3, source: id }, 0);
    let map = builder.build(&fs);
    // The second segment's source-line delta is +1 (`C`) and its
    // source-column delta is 0 (`A`).
    assert_eq!(map.mappings, "AAAA;AACA");
}

#[test]
fn null_source_suppression() {
    let (fs, id) = store_with("a\nbb");
    let null = source_map::SourceId(0);

    let mut with_null = SourceMapBuilder::new();
    with_null.add_mapping(&SpanWithSource { start: 0, end: 1, source: id }, 0);
    with_null.add_mapping(&SpanWithSource { start: 0, end: 0, source: null }, 1);
    with_null.add_new_line();
    with_null.add_mapping(&SpanWithSource { start: 2, end: 3, source: id }, 0);

    let mut without_null = SourceMapBuilder::new();
    without_null.add_mapping(&SpanWithSource { start: 0, end: 1, source: id }, 0);
    without_null.add_new_line();
    without_null.add_mapping(&SpanWithSource { start: 2, end: 3, source: id }, 0);

    let with_null = with_null.build(&fs);
    let without_null = without_null.build(&fs);
    assert_eq!(with_null.mappings, without_null.mappings);
    assert_eq!(with_null.sources, without_null.sources);
    assert!(!with_null.sources.contains(&null));
}

#[test]
fn break_count() {
    let (fs, id) = store_with("a");
    let mut builder = SourceMapBuilder::new();
    builder.add_new_line();
    builder.add_mapping(&SpanWithSource { start: 0, end: 1, source: id }, 0);
    builder.add_new_line();
    builder.add_new_line();
    let map = builder.build(&fs);
    assert_eq!(map.mappings.matches(';').count(), 3);
}

#[test]
fn segment_separators() {
    let (fs, id) = store_with("ab");
    let mut builder = SourceMapBuilder::new();
    builder.add_mapping(&SpanWithSource { start: 0, end: 1, source: id }, 0);
    builder.add_mapping(&SpanWithSource { start: 1, end: 2, source: id }, 1);
    builder.add_new_line();
    builder.add_mapping(&SpanWithSource { start: 0, end: 1, source: id }, 0);
    let map = builder.build(&fs);
    // Two segments on line zero separated by one comma, none across the
    // break.
    assert_eq!(map.mappings.matches(',').count(), 1);
    assert_eq!(map.mappings, "AAAA,CAAC;AAAD");
}

#[test]
fn consecutive_breaks() {
    let fs = MapFileStore::<NoPathMap>::default();
    let mut builder = SourceMapBuilder::new();
    builder.add_new_line();
    builder.add_new_line();
    let map = builder.build(&fs);
    assert_eq!(map.mappings, ";;");
}

#[test]
fn json_escapes_content() {
    let mut fs = MapFileStore::<NoPathMap>::default();
    let id = fs.new_source_id("dir\\f.txt".to_string(), "a\"b\nc\rd".to_string());
    let mut builder = SourceMapBuilder::new();
    builder.add_mapping(&SpanWithSource { start: 0, end: 1, source: id }, 0);
    let map = builder.build(&fs);
    let json = map.to_json(&fs);
    assert_eq!(
        json,
        "{\"version\":3,\"sourceRoot\":\"\",\"sources\":[\"dir/f.txt\"],\"sourcesContent\":[\"a\\\"b\\nc\\rd\"],\"names\":[],\"mappings\":\"AAAA\"}"
    );
}
