use base64::Engine;
use source_map::{
    Counter, FileSystem, MapFileStore, MaxCounter, NoPathMap, SpanWithSource,
    StringWithOptionalSourceMap, StringWithSourceMap, ToString,
};

fn serializer<T: ToString>(t: &mut T) {
    t.push_str("Hello");
    t.push(' ');
    t.push_str("World");
}

#[test]
fn string_concatenation() {
    let mut s = String::new();
    serializer(&mut s);
    assert_eq!(&s, "Hello World");
}

#[test]
fn counting() {
    let mut s = Counter::new();
    serializer(&mut s);
    assert_eq!(s.get_count(), "Hello World".chars().count());
}

#[test]
fn max_counter() {
    let mut s = MaxCounter::new(14);
    serializer(&mut s);
    assert!(!s.halt());
    serializer(&mut s);
    assert!(s.halt());
}

#[test]
fn max_counter_halt_stays() {
    let mut s = MaxCounter::new(2);
    s.push_str("abc");
    assert!(s.halt());
    s.push(' ');
    assert!(s.halt());
    s.push_new_line();
    assert!(s.halt());
    assert_eq!(s.get_acc(), 5);
}

#[test]
fn whitespace_collapse() {
    let input = "one two three four five six";
    let mut fs = MapFileStore::<NoPathMap>::default();
    let id = fs.new_source_id("file.txt".to_string(), input.to_string());

    let mut output = StringWithOptionalSourceMap::new(true);
    let mut byte = 0u32;
    for (idx, word) in input.split(' ').enumerate() {
        if idx != 0 {
            output.push(' ');
        }
        let span = SpanWithSource { start: byte, end: byte + word.len() as u32, source: id };
        output.add_mapping(&span);
        output.push_str(word);
        byte += word.len() as u32 + 1;
    }
    let (text, map) = output.build(&fs);
    let map = map.unwrap();
    assert_eq!(text, input);
    // One segment per word on line zero, five commas between the six.
    assert_eq!(map.mappings.matches(',').count(), 5);
    assert_eq!(map.mappings.matches(';').count(), 0);
    // The source-column delta after the first equals word length + 1.
    assert_eq!(map.mappings, "AAAA,IAAI,IAAI,MAAM,KAAK,KAAK");
}

#[test]
fn buffered_sink_tracks_lines() {
    let mut fs = MapFileStore::<NoPathMap>::default();
    let id = fs.new_source_id("f.txt".to_string(), "A\nB".to_string());
    let mut sink = StringWithSourceMap::new();
    sink.add_mapping(&SpanWithSource { start: 0, end: 1, source: id });
    sink.push('A');
    sink.push_new_line();
    sink.add_mapping(&SpanWithSource { start: 2, end: 3, source: id });
    sink.push_str_contains_new_line("B");
    let (text, map) = sink.build(&fs);
    assert_eq!(text, "A\nB");
    assert_eq!(map.mappings, "AAAA;AACA");
}

#[test]
fn inline_envelope() {
    let marker = "\n//# sourceMappingURL=data:application/json;base64,";
    let mut fs = MapFileStore::<NoPathMap>::default();
    let id = fs.new_source_id("f.txt".to_string(), "a".to_string());

    let mut sink = StringWithSourceMap::new();
    sink.add_mapping(&SpanWithSource { start: 0, end: 1, source: id });
    sink.push('a');
    let inline = sink.build_with_inline_source_map(&fs);

    // Exactly one occurrence of the marker.
    assert_eq!(inline.matches(marker).count(), 1);
    let at = inline.find(marker).unwrap();
    assert_eq!(&inline[..at], "a");

    // The trailing Base64 decodes to the byte-exact JSON of the map.
    let tail = &inline[at + marker.len()..];
    let decoded = base64::prelude::BASE64_STANDARD.decode(tail).unwrap();
    let expected_json =
        "{\"version\":3,\"sourceRoot\":\"\",\"sources\":[\"f.txt\"],\"sourcesContent\":[\"a\"],\"names\":[],\"mappings\":\"AAAA\"}";
    assert_eq!(decoded, expected_json.as_bytes());
}

#[test]
fn optional_sink_without_builder() {
    let fs = MapFileStore::<NoPathMap>::default();
    let mut sink = StringWithOptionalSourceMap::new(false);
    sink.push_str("plain");
    sink.push_new_line();
    let (text, map) = sink.build(&fs);
    assert_eq!(text, "plain\n");
    assert!(map.is_none());
}

#[test]
fn optional_sink_quit_after() {
    let mut sink = StringWithOptionalSourceMap::new(false);
    sink.quit_after = Some(3);
    assert!(!sink.halt());
    sink.push_str("abcd");
    assert!(sink.halt());
    sink.push_str("e");
    assert!(sink.halt());
}

#[test]
fn counter_multibyte() {
    let mut s = Counter::new();
    s.push('\u{e9}');
    s.push_new_line();
    assert_eq!(s.get_count(), 3);
}
