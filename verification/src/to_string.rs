//! Sinks that a generator writes output through: each records text (or
//! only its length) and, where a builder is attached, mappings and line
//! breaks as the text goes by.

use crate::base64_value;
use crate::count_char;
use crate::filesystem::FileSystem;
use crate::init_serialize_state;
use crate::nonnull_sources;
use crate::serialize_mappings;
use crate::source_map_json;
use crate::span::SpanWithSource;
use crate::text::{char_len_utf16, char_len_utf8, char_utf16_width, char_utf8_width};
use crate::source_id::SourceId;
use crate::MappingOrBreak;
use crate::SourceMap;
use crate::SourceMapBuilder;
use crate::SourceMapping;
use vstd::prelude::*;
use vstd::string::{StrSliceExecFns, StringExecFns, StringSliceAdditionalSpecFns};
use vstd::utf8::encode_utf8;

verus! {

/// A trait for defining behavior of adding content to a buffer, as well
/// as registering markers for source maps. Each implementation states
/// what its operations require and do through the paired `_req` / `_ens`
/// spec functions.
pub trait ToString: Sized {
    spec fn push_req(&self, chr: char) -> bool;

    spec fn push_ens(pre: Self, post: Self, chr: char) -> bool;

    spec fn push_new_line_req(&self) -> bool;

    spec fn push_new_line_ens(pre: Self, post: Self) -> bool;

    spec fn push_str_req(&self, string: Seq<char>) -> bool;

    spec fn push_str_ens(pre: Self, post: Self, string: Seq<char>) -> bool;

    spec fn push_str_contains_new_line_req(&self, string: Seq<char>) -> bool;

    spec fn push_str_contains_new_line_ens(pre: Self, post: Self, string: Seq<char>) -> bool;

    spec fn add_mapping_req(&self, span: SpanWithSource) -> bool;

    spec fn add_mapping_ens(pre: Self, post: Self, span: SpanWithSource) -> bool;

    spec fn halt_spec(&self) -> bool;

    /// Append a character.
    fn push(&mut self, chr: char)
        requires
            old(self).push_req(chr),
        ensures
            Self::push_ens(*old(self), *final(self), chr),
    ;

    /// Append a new line character.
    fn push_new_line(&mut self)
        requires
            old(self).push_new_line_req(),
        ensures
            Self::push_new_line_ens(*old(self), *final(self)),
    ;

    /// Append a string without new lines; use
    /// [`ToString::push_str_contains_new_line`] when it could contain
    /// them.
    fn push_str(&mut self, string: &str)
        requires
            old(self).push_str_req(string@),
        ensures
            Self::push_str_ens(*old(self), *final(self), string@),
    ;

    /// Append a string that may contain new lines.
    fn push_str_contains_new_line(&mut self, string: &str)
        requires
            old(self).push_str_contains_new_line_req(string@),
        ensures
            Self::push_str_contains_new_line_ens(*old(self), *final(self), string@),
    ;

    /// Record a mapping from a position in an original source to the
    /// position the next appended content will sit at. **Should be
    /// called before adding new content.**
    fn add_mapping(&mut self, source_span: &SpanWithSource)
        requires
            old(self).add_mapping_req(*source_span),
        ensures
            Self::add_mapping_ens(*old(self), *final(self), *source_span),
    ;

    /// Whether further appends have no effect, so a generator can end
    /// early.
    fn halt(&self) -> (r: bool)
        ensures
            r == self.halt_spec(),
    ;
}

impl ToString for String {
    open spec fn push_req(&self, chr: char) -> bool {
        true
    }

    open spec fn push_ens(pre: Self, post: Self, chr: char) -> bool {
        post@ == pre@.push(chr)
    }

    open spec fn push_new_line_req(&self) -> bool {
        true
    }

    open spec fn push_new_line_ens(pre: Self, post: Self) -> bool {
        post@ == pre@.push('\n')
    }

    open spec fn push_str_req(&self, string: Seq<char>) -> bool {
        true
    }

    open spec fn push_str_ens(pre: Self, post: Self, string: Seq<char>) -> bool {
        post@ == pre@ + string
    }

    open spec fn push_str_contains_new_line_req(&self, string: Seq<char>) -> bool {
        true
    }

    open spec fn push_str_contains_new_line_ens(pre: Self, post: Self, string: Seq<char>) -> bool {
        post@ == pre@ + string
    }

    open spec fn add_mapping_req(&self, span: SpanWithSource) -> bool {
        true
    }

    open spec fn add_mapping_ens(pre: Self, post: Self, span: SpanWithSource) -> bool {
        post == pre
    }

    open spec fn halt_spec(&self) -> bool {
        false
    }

    fn push(&mut self, chr: char) {
        crate::text::push_char(self, chr);
    }

    fn push_new_line(&mut self) {
        crate::text::push_char(self, '\n');
    }

    fn push_str(&mut self, string: &str) {
        self.append(string);
    }

    fn push_str_contains_new_line(&mut self, string: &str) {
        self.append(string);
    }

    fn add_mapping(&mut self, _source_span: &SpanWithSource) {
    }

    fn halt(&self) -> (r: bool) {
        false
    }
}

/// `n` break events.
pub open spec fn breaks_of(n: nat) -> Seq<MappingOrBreak> {
    Seq::new(n, |i: int| MappingOrBreak::Break)
}

/// Fires one `add_new_line` on `builder` per `\n` of `string`.
fn add_new_lines_of(builder: &mut SourceMapBuilder, string: &str)
    requires
        old(builder).wf(),
        old(builder).output_line() + count_char(string@, '\n') <= u32::MAX,
    ensures
        final(builder).wf(),
        final(builder).events() =~= old(builder).events() + breaks_of(
            count_char(string@, '\n'),
        ),
        final(builder).used() == old(builder).used(),
        final(builder).output_line() == old(builder).output_line() + count_char(string@, '\n'),
        final(builder).output_column() == (if count_char(string@, '\n') == 0 {
            old(builder).output_column()
        } else {
            0int
        }),
{
    let n = string.unicode_len();
    let mut j: usize = 0;
    proof {
        lemma_count_char_take_step(string@, n as int);
        assert(string@.take(0) =~= Seq::<char>::empty());
        assert(old(builder).events() + breaks_of(0) =~= old(builder).events());
    }
    while j < n
        invariant
            j <= n,
            n == string@.len(),
            builder.wf(),
            builder.used() == old(builder).used(),
            count_char(string@.take(j as int), '\n') <= count_char(string@, '\n'),
            old(builder).output_line() + count_char(string@, '\n') <= u32::MAX,
            builder.events() =~= old(builder).events() + breaks_of(
                count_char(string@.take(j as int), '\n'),
            ),
            builder.output_line() == old(builder).output_line() + count_char(
                string@.take(j as int),
                '\n',
            ),
            builder.output_column() == (if count_char(string@.take(j as int), '\n') == 0 {
                old(builder).output_column()
            } else {
                0int
            }),
        decreases n - j,
    {
        let c = string.get_char(j);
        let ghost pre_events = builder.events();
        let ghost pre_count = count_char(string@.take(j as int), '\n');
        proof {
            crate::lemma_count_char_concat(string@.take(j as int), seq![string@[j as int]], '\n');
            assert(string@.take(j + 1int) =~= string@.take(j as int) + seq![string@[j as int]]);
            assert(seq![string@[j as int]].drop_first() =~= Seq::<char>::empty());
            assert(count_char(Seq::<char>::empty(), '\n') == 0);
            assert(count_char(seq![string@[j as int]], '\n') == (if string@[j as int] == '\n' {
                1int
            } else {
                0int
            }));
            lemma_count_char_take_step(string@, j + 1int);
        }
        if c == '\n' {
            builder.add_new_line();
            proof {
                assert(count_char(string@.take(j + 1int), '\n') == pre_count + 1);
                assert(pre_events.push(MappingOrBreak::Break) =~= old(builder).events()
                    + breaks_of((pre_count + 1) as nat));
                assert(builder.events() =~= old(builder).events() + breaks_of(
                    count_char(string@.take(j + 1int), '\n'),
                ));
            }
        }
        j = j + 1;
    }
    proof {
        assert(string@.take(n as int) =~= string@);
    }
}

/// A prefix never holds more occurrences than the whole.
proof fn lemma_count_char_take_step(s: Seq<char>, k: int)
    requires
        0 <= k <= s.len(),
    ensures
        count_char(s.take(k), '\n') <= count_char(s, '\n'),
{
    crate::lemma_count_char_concat(s.take(k), s.skip(k), '\n');
    assert(s.take(k) + s.skip(k) =~= s);
}

/// Building a source along with its source map.
pub struct StringWithSourceMap(String, SourceMapBuilder);

impl StringWithSourceMap {
    /// The text accumulated so far.
    pub closed spec fn text(&self) -> Seq<char> {
        self.0@
    }

    /// The attached builder.
    pub closed spec fn builder(&self) -> SourceMapBuilder {
        self.1
    }

    pub open spec fn wf(&self) -> bool {
        self.builder().wf()
    }

    /// An empty buffer with an empty builder.
    pub fn new() -> (r: Self)
        ensures
            r.wf(),
            r.text() =~= Seq::<char>::empty(),
            r.builder().events() =~= Seq::<MappingOrBreak>::empty(),
            r.builder().used() =~= Seq::<SourceId>::empty(),
            r.builder().output_line() == 0,
            r.builder().output_column() == 0,
    {
        StringWithSourceMap(String::new(), SourceMapBuilder::new())
    }

    /// Returns the accumulated text and the serialized source map.
    pub fn build<FS: FileSystem>(self, filesystem: &FS) -> (r: (String, SourceMap))
        requires
            self.wf(),
            filesystem.wf(),
            forall|i: int|
                0 <= i < self.builder().used().len() ==> ((
                #[trigger] self.builder().used()[i]).0 == 0 || (1 <= self.builder().used()[i].0
                    <= filesystem.sources().len() && encode_utf8(
                    filesystem.sources()[self.builder().used()[i].0 - 1].content,
                ).len() <= u32::MAX)),
        ensures
            r.0@ == self.text(),
            r.1.sources@ =~= nonnull_sources(self.builder().used()),
            r.1.mappings@ =~= serialize_mappings(
                filesystem.sources(),
                nonnull_sources(self.builder().used()),
                self.builder().events(),
                init_serialize_state(),
            ),
    {
        let StringWithSourceMap(source, builder) = self;
        (source, builder.build(filesystem))
    }

    /// Builds the output with the source map appended as an inline
    /// Base64 data-URL comment.
    pub fn build_with_inline_source_map<FS: FileSystem>(self, filesystem: &FS) -> (r: String)
        requires
            self.wf(),
            filesystem.wf(),
            forall|i: int|
                0 <= i < self.builder().used().len() ==> ((
                #[trigger] self.builder().used()[i]).0 == 0 || (1 <= self.builder().used()[i].0
                    <= filesystem.sources().len() && encode_utf8(
                    filesystem.sources()[self.builder().used()[i].0 - 1].content,
                ).len() <= u32::MAX)),
        ensures
            r@ =~= self.text() + inline_comment_marker() + base64_of(
                source_map_json(
                    filesystem.sources(),
                    nonnull_sources(self.builder().used()),
                    serialize_mappings(
                        filesystem.sources(),
                        nonnull_sources(self.builder().used()),
                        self.builder().events(),
                        init_serialize_state(),
                    ),
                ),
            ),
    {
        let StringWithSourceMap(mut source, builder) = self;
        proof {
            crate::lemma_nonnull_sources(builder.used());
        }
        let built_source_map = builder.build(filesystem);
        proof {
            assert forall|i: int|
                0 <= i < built_source_map.sources@.len() implies 1 <= (
            #[trigger] built_source_map.sources@[i]).0 <= filesystem.sources().len() by {
                let x = built_source_map.sources@[i];
                assert(nonnull_sources(builder.used())[i] == x);
                assert(nonnull_sources(builder.used()).contains(x));
                assert(builder.used().contains(x) && x.0 != 0);
                let j = choose|j: int|
                    0 <= j < builder.used().len() && builder.used()[j] == x;
                assert(1 <= builder.used()[j].0 <= filesystem.sources().len());
            }
        }
        let json = built_source_map.to_json(filesystem);
        source.append("\n//# sourceMappingURL=data:application/json;base64,");
        let encoded = base64_encode(json.as_str());
        source.append(encoded.as_str());
        source
    }
}

impl Default for StringWithSourceMap {
    fn default() -> (r: Self)
        ensures
            r.wf(),
            r.text() =~= Seq::<char>::empty(),
            r.builder().events() =~= Seq::<MappingOrBreak>::empty(),
            r.builder().used() =~= Seq::<SourceId>::empty(),
            r.builder().output_line() == 0,
            r.builder().output_column() == 0,
    {
        StringWithSourceMap::new()
    }
}

impl ToString for StringWithSourceMap {
    open spec fn push_req(&self, chr: char) -> bool {
        self.wf() && self.builder().output_column() + char_utf16_width(chr) <= u32::MAX
    }

    open spec fn push_ens(pre: Self, post: Self, chr: char) -> bool {
        &&& post.text() == pre.text().push(chr)
        &&& post.builder().events() == pre.builder().events()
        &&& post.builder().used() == pre.builder().used()
        &&& post.builder().output_line() == pre.builder().output_line()
        &&& post.builder().output_column() == pre.builder().output_column() + char_utf16_width(
            chr,
        )
        &&& post.wf()
    }

    open spec fn push_new_line_req(&self) -> bool {
        self.wf() && self.builder().output_line() + 1 <= u32::MAX
    }

    open spec fn push_new_line_ens(pre: Self, post: Self) -> bool {
        &&& post.text() == pre.text().push('\n')
        &&& post.builder().events() == pre.builder().events().push(MappingOrBreak::Break)
        &&& post.builder().used() == pre.builder().used()
        &&& post.builder().output_line() == pre.builder().output_line() + 1
        &&& post.builder().output_column() == 0
        &&& post.wf()
    }

    open spec fn push_str_req(&self, string: Seq<char>) -> bool {
        self.wf() && self.builder().output_column() + string.len() <= u32::MAX
    }

    open spec fn push_str_ens(pre: Self, post: Self, string: Seq<char>) -> bool {
        &&& post.text() == pre.text() + string
        &&& post.builder().events() == pre.builder().events()
        &&& post.builder().used() == pre.builder().used()
        &&& post.builder().output_line() == pre.builder().output_line()
        &&& post.builder().output_column() == pre.builder().output_column() + string.len()
        &&& post.wf()
    }

    open spec fn push_str_contains_new_line_req(&self, string: Seq<char>) -> bool {
        self.wf() && self.builder().output_line() + count_char(string, '\n') <= u32::MAX
    }

    open spec fn push_str_contains_new_line_ens(pre: Self, post: Self, string: Seq<char>) -> bool {
        &&& post.text() == pre.text() + string
        &&& post.builder().events() == pre.builder().events() + breaks_of(
            count_char(string, '\n'),
        )
        &&& post.builder().used() == pre.builder().used()
        &&& post.builder().output_line() == pre.builder().output_line() + count_char(string, '\n')
        &&& post.builder().output_column() == (if count_char(string, '\n') == 0 {
            pre.builder().output_column()
        } else {
            0int
        })
        &&& post.wf()
    }

    open spec fn add_mapping_req(&self, span: SpanWithSource) -> bool {
        self.wf()
    }

    open spec fn add_mapping_ens(pre: Self, post: Self, span: SpanWithSource) -> bool {
        &&& post.text() == pre.text()
        &&& post.builder().events() == pre.builder().events().push(
            MappingOrBreak::Mapping(
                SourceMapping {
                    on_output_column: pre.builder().output_column() as u32,
                    source_byte_start: span.start,
                    from_source: span.source,
                },
            ),
        )
        &&& post.builder().used() == (if pre.builder().used().contains(span.source) {
            pre.builder().used()
        } else {
            pre.builder().used().push(span.source)
        })
        &&& post.builder().output_line() == pre.builder().output_line()
        &&& post.builder().output_column() == pre.builder().output_column()
        &&& (pre.wf() ==> post.wf())
    }

    open spec fn halt_spec(&self) -> bool {
        false
    }

    fn push(&mut self, chr: char) {
        crate::text::push_char(&mut self.0, chr);
        let w = char_len_utf16(chr);
        self.1.add_to_column(w);
    }

    fn push_new_line(&mut self) {
        crate::text::push_char(&mut self.0, '\n');
        self.1.add_new_line();
    }

    fn push_str(&mut self, string: &str) {
        self.0.append(string);
        let n = string.unicode_len();
        self.1.add_to_column(n);
    }

    fn push_str_contains_new_line(&mut self, string: &str) {
        self.0.append(string);
        add_new_lines_of(&mut self.1, string);
    }

    fn add_mapping(&mut self, source_span: &SpanWithSource) {
        let column = self.1.current_column();
        self.1.add_mapping(source_span, column);
    }

    fn halt(&self) -> (r: bool) {
        false
    }
}

/// Building a source along with an optional source map; really for debug
/// builds, and for bounding output length through `quit_after`.
pub struct StringWithOptionalSourceMap {
    pub source: String,
    pub source_map: Option<SourceMapBuilder>,
    pub quit_after: Option<usize>,
}

/// Both sides hold a builder in the same state except that the output
/// column advanced by `n`, or neither holds one.
pub open spec fn builder_column_advanced(
    pre: Option<SourceMapBuilder>,
    post: Option<SourceMapBuilder>,
    n: int,
) -> bool {
    match (pre, post) {
        (Option::None, Option::None) => true,
        (Option::Some(a), Option::Some(b)) => {
            &&& b.events() == a.events()
            &&& b.used() == a.used()
            &&& b.output_line() == a.output_line()
            &&& b.output_column() == a.output_column() + n
            &&& (a.wf() ==> b.wf())
        },
        _ => false,
    }
}

/// The optional builder is well formed and its counters have room for
/// `lines` more lines and `cols` more columns.
pub open spec fn builder_has_room(
    b: Option<SourceMapBuilder>,
    lines: int,
    cols: int,
) -> bool {
    match b {
        Option::None => true,
        Option::Some(b) => b.wf() && b.output_line() + lines <= u32::MAX && b.output_column()
            + cols <= u32::MAX,
    }
}

impl StringWithOptionalSourceMap {
    /// An empty buffer, with an empty builder when `with_source_map` is
    /// set.
    pub fn new(with_source_map: bool) -> (r: Self)
        ensures
            r.source@ =~= Seq::<char>::empty(),
            r.quit_after is None,
            with_source_map <==> r.source_map is Some,
            match r.source_map {
                Option::Some(b) => b.wf() && b.events() =~= Seq::<MappingOrBreak>::empty()
                    && b.used() =~= Seq::<SourceId>::empty() && b.output_line() == 0
                    && b.output_column() == 0,
                Option::None => true,
            },
    {
        StringWithOptionalSourceMap {
            source: String::new(),
            source_map: if with_source_map {
                Option::Some(SourceMapBuilder::new())
            } else {
                Option::None
            },
            quit_after: Option::None,
        }
    }

    /// Returns the source and, when a builder was attached, the
    /// serialized source map.
    pub fn build<FS: FileSystem>(self, filesystem: &FS) -> (r: (String, Option<SourceMap>))
        requires
            filesystem.wf(),
            match self.source_map {
                Option::Some(b) => b.wf() && forall|i: int|
                    0 <= i < b.used().len() ==> ((#[trigger] b.used()[i]).0 == 0 || (
                    1 <= b.used()[i].0 <= filesystem.sources().len() && encode_utf8(
                        filesystem.sources()[b.used()[i].0 - 1].content,
                    ).len() <= u32::MAX)),
                Option::None => true,
            },
        ensures
            r.0@ == self.source@,
            match (self.source_map, r.1) {
                (Option::None, Option::None) => true,
                (Option::Some(b), Option::Some(m)) => {
                    &&& m.sources@ =~= nonnull_sources(b.used())
                    &&& m.mappings@ =~= serialize_mappings(
                        filesystem.sources(),
                        nonnull_sources(b.used()),
                        b.events(),
                        init_serialize_state(),
                    )
                },
                _ => false,
            },
    {
        match self.source_map {
            Option::Some(builder) => (self.source, Option::Some(builder.build(filesystem))),
            Option::None => (self.source, Option::None),
        }
    }

    /// Builds the output with the source map appended as an inline
    /// Base64 data-URL comment; a builder must have been attached.
    pub fn build_with_inline_source_map<FS: FileSystem>(self, filesystem: &FS) -> (r: String)
        requires
            filesystem.wf(),
            self.source_map is Some,
            match self.source_map {
                Option::Some(b) => b.wf() && forall|i: int|
                    0 <= i < b.used().len() ==> ((#[trigger] b.used()[i]).0 == 0 || (
                    1 <= b.used()[i].0 <= filesystem.sources().len() && encode_utf8(
                        filesystem.sources()[b.used()[i].0 - 1].content,
                    ).len() <= u32::MAX)),
                Option::None => true,
            },
        ensures
            match self.source_map {
                Option::Some(b) => r@ =~= self.source@ + inline_comment_marker() + base64_of(
                    source_map_json(
                        filesystem.sources(),
                        nonnull_sources(b.used()),
                        serialize_mappings(
                            filesystem.sources(),
                            nonnull_sources(b.used()),
                            b.events(),
                            init_serialize_state(),
                        ),
                    ),
                ),
                Option::None => true,
            },
    {
        let StringWithOptionalSourceMap { mut source, source_map, quit_after: _ } = self;
        let builder = match source_map {
            Option::Some(builder) => builder,
            Option::None => {
                proof {
                    assert(false);
                }
                SourceMapBuilder::new()
            },
        };
        proof {
            crate::lemma_nonnull_sources(builder.used());
        }
        let built_source_map = builder.build(filesystem);
        proof {
            assert forall|i: int|
                0 <= i < built_source_map.sources@.len() implies 1 <= (
            #[trigger] built_source_map.sources@[i]).0 <= filesystem.sources().len() by {
                let x = built_source_map.sources@[i];
                assert(nonnull_sources(builder.used())[i] == x);
                assert(nonnull_sources(builder.used()).contains(x));
                assert(builder.used().contains(x) && x.0 != 0);
                let j = choose|j: int|
                    0 <= j < builder.used().len() && builder.used()[j] == x;
                assert(1 <= builder.used()[j].0 <= filesystem.sources().len());
            }
        }
        let json = built_source_map.to_json(filesystem);
        source.append("\n//# sourceMappingURL=data:application/json;base64,");
        let encoded = base64_encode(json.as_str());
        source.append(encoded.as_str());
        source
    }
}

impl ToString for StringWithOptionalSourceMap {
    open spec fn push_req(&self, chr: char) -> bool {
        builder_has_room(self.source_map, 0, char_utf16_width(chr) as int)
    }

    open spec fn push_ens(pre: Self, post: Self, chr: char) -> bool {
        &&& post.source@ == pre.source@.push(chr)
        &&& builder_column_advanced(
            pre.source_map,
            post.source_map,
            char_utf16_width(chr) as int,
        )
        &&& post.quit_after == pre.quit_after
    }

    open spec fn push_new_line_req(&self) -> bool {
        builder_has_room(self.source_map, 1, 0)
    }

    open spec fn push_new_line_ens(pre: Self, post: Self) -> bool {
        &&& post.source@ == pre.source@.push('\n')
        &&& match (pre.source_map, post.source_map) {
            (Option::None, Option::None) => true,
            (Option::Some(a), Option::Some(b)) => {
                &&& b.events() == a.events().push(MappingOrBreak::Break)
                &&& b.used() == a.used()
                &&& b.output_line() == a.output_line() + 1
                &&& b.output_column() == 0
                &&& (a.wf() ==> b.wf())
            },
            _ => false,
        }
        &&& post.quit_after == pre.quit_after
    }

    open spec fn push_str_req(&self, string: Seq<char>) -> bool {
        builder_has_room(self.source_map, 0, string.len() as int)
    }

    open spec fn push_str_ens(pre: Self, post: Self, string: Seq<char>) -> bool {
        &&& post.source@ == pre.source@ + string
        &&& builder_column_advanced(pre.source_map, post.source_map, string.len() as int)
        &&& post.quit_after == pre.quit_after
    }

    open spec fn push_str_contains_new_line_req(&self, string: Seq<char>) -> bool {
        builder_has_room(self.source_map, count_char(string, '\n') as int, 0)
    }

    open spec fn push_str_contains_new_line_ens(pre: Self, post: Self, string: Seq<char>) -> bool {
        &&& post.source@ == pre.source@ + string
        &&& match (pre.source_map, post.source_map) {
            (Option::None, Option::None) => true,
            (Option::Some(a), Option::Some(b)) => {
                &&& b.events() == a.events() + breaks_of(count_char(string, '\n'))
                &&& b.used() == a.used()
                &&& b.output_line() == a.output_line() + count_char(string, '\n')
                &&& b.output_column() == (if count_char(string, '\n') == 0 {
                    a.output_column()
                } else {
                    0int
                })
                &&& (a.wf() ==> b.wf())
            },
            _ => false,
        }
        &&& post.quit_after == pre.quit_after
    }

    open spec fn add_mapping_req(&self, span: SpanWithSource) -> bool {
        builder_has_room(self.source_map, 0, 0)
    }

    open spec fn add_mapping_ens(pre: Self, post: Self, span: SpanWithSource) -> bool {
        &&& post.source@ == pre.source@
        &&& match (pre.source_map, post.source_map) {
            (Option::None, Option::None) => true,
            (Option::Some(a), Option::Some(b)) => {
                &&& b.events() == a.events().push(
                    MappingOrBreak::Mapping(
                        SourceMapping {
                            on_output_column: a.output_column() as u32,
                            source_byte_start: span.start,
                            from_source: span.source,
                        },
                    ),
                )
                &&& b.used() == (if a.used().contains(span.source) {
                    a.used()
                } else {
                    a.used().push(span.source)
                })
                &&& b.output_line() == a.output_line()
                &&& b.output_column() == a.output_column()
                &&& (a.wf() ==> b.wf())
            },
            _ => false,
        }
        &&& post.quit_after == pre.quit_after
    }

    open spec fn halt_spec(&self) -> bool {
        match self.quit_after {
            Option::Some(quit_after) => encode_utf8(self.source@).len() > quit_after,
            Option::None => false,
        }
    }

    fn push(&mut self, chr: char) {
        crate::text::push_char(&mut self.source, chr);
        if let Option::Some(sm) = &mut self.source_map {
            let w = char_len_utf16(chr);
            sm.add_to_column(w);
        }
    }

    fn push_new_line(&mut self) {
        crate::text::push_char(&mut self.source, '\n');
        if let Option::Some(sm) = &mut self.source_map {
            sm.add_new_line();
        }
    }

    fn push_str(&mut self, string: &str) {
        self.source.append(string);
        if let Option::Some(sm) = &mut self.source_map {
            let n = string.unicode_len();
            sm.add_to_column(n);
        }
    }

    fn push_str_contains_new_line(&mut self, string: &str) {
        self.source.append(string);
        if let Option::Some(sm) = &mut self.source_map {
            add_new_lines_of(sm, string);
        }
    }

    fn add_mapping(&mut self, source_span: &SpanWithSource) {
        if let Option::Some(sm) = &mut self.source_map {
            let column = sm.current_column();
            sm.add_mapping(source_span, column);
        }
    }

    fn halt(&self) -> (r: bool) {
        match &self.quit_after {
            Option::Some(quit_after) => self.source.as_str().as_bytes().len() > *quit_after,
            Option::None => false,
        }
    }
}

/// Used for getting the **byte count** of the result when built into a
/// string, without building the string.
pub struct Counter(usize);

impl Counter {
    /// The accumulated byte count.
    pub closed spec fn count(&self) -> int {
        self.0 as int
    }

    pub fn new() -> (r: Self)
        ensures
            r.count() == 0,
    {
        Counter(0)
    }

    pub fn get_count(self) -> (r: usize)
        ensures
            r == self.count(),
    {
        self.0
    }
}

impl Default for Counter {
    fn default() -> (r: Self)
        ensures
            r.count() == 0,
    {
        Counter(0)
    }
}

impl ToString for Counter {
    open spec fn push_req(&self, chr: char) -> bool {
        self.count() + char_utf8_width(chr) <= usize::MAX
    }

    open spec fn push_ens(pre: Self, post: Self, chr: char) -> bool {
        post.count() == pre.count() + char_utf8_width(chr)
    }

    open spec fn push_new_line_req(&self) -> bool {
        self.count() + 1 <= usize::MAX
    }

    open spec fn push_new_line_ens(pre: Self, post: Self) -> bool {
        post.count() == pre.count() + 1
    }

    open spec fn push_str_req(&self, string: Seq<char>) -> bool {
        self.count() + encode_utf8(string).len() <= usize::MAX
    }

    open spec fn push_str_ens(pre: Self, post: Self, string: Seq<char>) -> bool {
        post.count() == pre.count() + encode_utf8(string).len()
    }

    open spec fn push_str_contains_new_line_req(&self, string: Seq<char>) -> bool {
        self.count() + encode_utf8(string).len() <= usize::MAX
    }

    open spec fn push_str_contains_new_line_ens(pre: Self, post: Self, string: Seq<char>) -> bool {
        post.count() == pre.count() + encode_utf8(string).len()
    }

    open spec fn add_mapping_req(&self, span: SpanWithSource) -> bool {
        true
    }

    open spec fn add_mapping_ens(pre: Self, post: Self, span: SpanWithSource) -> bool {
        post == pre
    }

    open spec fn halt_spec(&self) -> bool {
        false
    }

    fn push(&mut self, chr: char) {
        let w = char_len_utf8(chr);
        self.0 = self.0 + w;
    }

    fn push_new_line(&mut self) {
        self.0 = self.0 + 1;
    }

    fn push_str(&mut self, string: &str) {
        self.0 = self.0 + string.len();
    }

    fn push_str_contains_new_line(&mut self, string: &str) {
        self.0 = self.0 + string.len();
    }

    fn add_mapping(&mut self, _source_span: &SpanWithSource) {
    }

    fn halt(&self) -> (r: bool) {
        false
    }
}

/// Counts text until a limit; used for telling whether the text grows
/// past some threshold.
pub struct MaxCounter {
    acc: usize,
    max: usize,
}

impl MaxCounter {
    /// The accumulated byte count.
    pub closed spec fn acc(&self) -> int {
        self.acc as int
    }

    /// The threshold the counter was made with.
    pub closed spec fn max_limit(&self) -> int {
        self.max as int
    }

    pub fn new(max: usize) -> (r: Self)
        ensures
            r.acc() == 0,
            r.max_limit() == max,
    {
        MaxCounter { acc: 0, max }
    }

    /// The accumulated count, to see by how much the limit was overshot.
    pub fn get_acc(&self) -> (r: usize)
        ensures
            r == self.acc(),
    {
        self.acc
    }
}

impl ToString for MaxCounter {
    open spec fn push_req(&self, chr: char) -> bool {
        self.acc() + char_utf8_width(chr) <= usize::MAX
    }

    open spec fn push_ens(pre: Self, post: Self, chr: char) -> bool {
        post.acc() == pre.acc() + char_utf8_width(chr) && post.max_limit() == pre.max_limit()
    }

    open spec fn push_new_line_req(&self) -> bool {
        self.acc() + 1 <= usize::MAX
    }

    open spec fn push_new_line_ens(pre: Self, post: Self) -> bool {
        post.acc() == pre.acc() + 1 && post.max_limit() == pre.max_limit()
    }

    open spec fn push_str_req(&self, string: Seq<char>) -> bool {
        self.acc() + encode_utf8(string).len() <= usize::MAX
    }

    open spec fn push_str_ens(pre: Self, post: Self, string: Seq<char>) -> bool {
        post.acc() == pre.acc() + encode_utf8(string).len() && post.max_limit() == pre.max_limit()
    }

    open spec fn push_str_contains_new_line_req(&self, string: Seq<char>) -> bool {
        self.acc() + encode_utf8(string).len() <= usize::MAX
    }

    open spec fn push_str_contains_new_line_ens(pre: Self, post: Self, string: Seq<char>) -> bool {
        post.acc() == pre.acc() + encode_utf8(string).len() && post.max_limit() == pre.max_limit()
    }

    open spec fn add_mapping_req(&self, span: SpanWithSource) -> bool {
        true
    }

    open spec fn add_mapping_ens(pre: Self, post: Self, span: SpanWithSource) -> bool {
        post == pre
    }

    open spec fn halt_spec(&self) -> bool {
        self.acc() > self.max_limit()
    }

    fn push(&mut self, chr: char) {
        let w = char_len_utf8(chr);
        self.acc = self.acc + w;
    }

    fn push_new_line(&mut self) {
        self.acc = self.acc + 1;
    }

    fn push_str(&mut self, string: &str) {
        self.acc = self.acc + string.len();
    }

    fn push_str_contains_new_line(&mut self, string: &str) {
        self.acc = self.acc + string.len();
    }

    fn add_mapping(&mut self, _source_span: &SpanWithSource) {
    }

    fn halt(&self) -> (r: bool) {
        self.acc > self.max
    }
}

/// Halting: every append operation on a bounded counter only grows the
/// accumulator and keeps the limit, so once `halt` has returned true it
/// never returns to false under further appends.
pub proof fn lemma_max_counter_halt_monotone(pre: MaxCounter, post: MaxCounter)
    requires
        pre.halt_spec(),
        post.max_limit() == pre.max_limit(),
        post.acc() >= pre.acc(),
    ensures
        post.halt_spec(),
{
}

/// What the base64 crate's standard engine returns for the UTF-8 bytes
/// of a string: a function of those bytes alone.
pub uninterp spec fn base64_of(s: Seq<char>) -> Seq<char>;

/// Relies on base64's `Engine::encode` with `BASE64_STANDARD`: standard
/// alphabet with `=` padding, deterministic in the input bytes, empty
/// for empty input.
#[verifier::external_body]
fn base64_encode(s: &str) -> (r: String)
    ensures
        r@ == base64_of(s@),
        forall|i: int|
            0 <= i < r@.len() ==> (base64_value(#[trigger] r@[i]) >= 0 || r@[i] == '='),
        s@.len() == 0 ==> r@.len() == 0,
{
    base64::Engine::encode(&base64::prelude::BASE64_STANDARD, s.as_bytes())
}

/// The comment that carries an inline source map, appended after the
/// generated text.
pub open spec fn inline_comment_marker() -> Seq<char> {
    "\n//# sourceMappingURL=data:application/json;base64,"@
}

/// The marker is 51 characters, opens with its only newline, and holds
/// no other.
proof fn lemma_marker_chars()
    ensures
        inline_comment_marker().len() == 51,
        inline_comment_marker()[0] == '\n',
        forall|j: int| 1 <= j < 51 ==> inline_comment_marker()[j] != '\n',
{
    reveal_strlit("\n//# sourceMappingURL=data:application/json;base64,");
    assert forall|j: int| 1 <= j < 51 implies inline_comment_marker()[j] != '\n' by {
        assert(inline_comment_marker()[j] != '\n');
    }
}

/// Whether `pat` occurs in `s` starting at index `i`.
pub open spec fn occurs_at(s: Seq<char>, pat: Seq<char>, i: int) -> bool {
    0 <= i && i + pat.len() <= s.len() && s.subrange(i, i + pat.len()) == pat
}

/// Inline envelope: the output of an inline build is the generated text,
/// the inline comment marker, and Base64 text; when the generated text
/// itself does not contain the marker, the marker occurs in the output
/// exactly once, right after the text.
pub proof fn lemma_inline_marker_occurs_once(text: Seq<char>, b64: Seq<char>)
    requires
        forall|i: int| !occurs_at(text, inline_comment_marker(), i),
        forall|k: int| 0 <= k < b64.len() ==> b64[k] != '\n',
    ensures
        occurs_at(
            text + inline_comment_marker() + b64,
            inline_comment_marker(),
            text.len() as int,
        ),
        forall|i: int|
            occurs_at(text + inline_comment_marker() + b64, inline_comment_marker(), i) ==> i
                == text.len(),
{
    let pat = inline_comment_marker();
    lemma_marker_chars();
    let s = text + pat + b64;
    assert(s.subrange(text.len() as int, text.len() as int + pat.len() as int) =~= pat);
    assert forall|i: int| occurs_at(s, pat, i) implies i == text.len() by {
        let found = s.subrange(i, i + pat.len());
        if i < text.len() {
            if i + pat.len() <= text.len() {
                assert(text.subrange(i, i + pat.len()) =~= found);
                assert(occurs_at(text, pat, i));
            } else {
                let k = text.len() - i;
                assert(1 <= k < pat.len());
                assert(found[k] == s[i + k]);
                assert(s[text.len() as int] == pat[0]);
                assert(pat[k] == '\n');
            }
        } else if i > text.len() {
            assert(found[0] == s[i]);
            assert(s[i] == pat[0]);
            if i < text.len() + pat.len() {
                assert(s[i] == pat[i - text.len()]);
            } else {
                assert(s[i] == b64[i - text.len() - pat.len()]);
            }
        }
    }
}

} // verus!
