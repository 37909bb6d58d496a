//! The source registry: owns each registered source's path, content and
//! line-start index, and hands out dense [`SourceId`] handles starting at 1.

use crate::lines_columns_indexes::{line_starts_spec, LineStarts};
use crate::source_id::SourceId;
use crate::span::SpanWithSource;
use crate::text::lemma_encode_utf8_concat;
use vstd::prelude::*;
use vstd::string::{StringExecFns, StringSliceAdditionalSpecFns};
use vstd::pervasive::VecAdditionalExecFns;
use vstd::utf8::encode_utf8;

verus! {

/// A registered source: its path, its content, and the precomputed index
/// of its line starts.
pub struct Source {
    pub path: String,
    pub content: String,
    pub line_starts: LineStarts,
}

impl Source {
    /// The line-start index matches the content.
    pub open spec fn wf(&self) -> bool {
        &&& self.line_starts@ == line_starts_spec(encode_utf8(self.content@))
        &&& self.line_starts.wf()
    }
}

/// What a registry entry looks like from a contract: the path and the
/// content, as character sequences.
pub struct SourceView {
    pub path: Seq<char>,
    pub content: Seq<char>,
}

/// A registry of sources that the builder and the span conversions read
/// from.
pub trait FileSystem: Sized {
    /// The registered sources, in registration order; the handle of
    /// `sources()[i]` is `i + 1`.
    spec fn sources(&self) -> Seq<SourceView>;

    /// Every stored line-start index matches its content.
    spec fn wf(&self) -> bool;

    /// Registers a source and returns its handle together with a copy of
    /// its line-start index.
    fn new_source_id_with_line_starts(&mut self, path: String, content: String) -> (r: (
        SourceId,
        LineStarts,
    ))
        requires
            old(self).wf(),
            old(self).sources().len() + 1 <= u16::MAX,
        ensures
            final(self).wf(),
            final(self).sources() =~= old(self).sources().push(
                SourceView { path: path@, content: content@ },
            ),
            r.0.0 as int == old(self).sources().len() + 1,
            r.1@ == line_starts_spec(encode_utf8(content@)),
            r.1.wf(),
    ;

    /// Registers a source and returns its handle.
    fn new_source_id(&mut self, path: String, content: String) -> (r: SourceId)
        requires
            old(self).wf(),
            old(self).sources().len() + 1 <= u16::MAX,
        ensures
            final(self).wf(),
            final(self).sources() =~= old(self).sources().push(
                SourceView { path: path@, content: content@ },
            ),
            r.0 as int == old(self).sources().len() + 1,
    {
        self.new_source_id_with_line_starts(path, content).0
    }

    /// A copy of the line-start index of the source behind `source_id`.
    fn get_line_starts(&self, source_id: SourceId) -> (r: LineStarts)
        requires
            self.wf(),
            1 <= source_id.0 <= self.sources().len(),
        ensures
            r@ == line_starts_spec(encode_utf8(self.sources()[source_id.0 - 1].content)),
            r.wf(),
    ;

    /// The path and the content of the source behind `source_id`.
    fn get_file_path_and_content(&self, source_id: SourceId) -> (r: (String, String))
        requires
            self.wf(),
            1 <= source_id.0 <= self.sources().len(),
        ensures
            r.0@ == self.sources()[source_id.0 - 1].path,
            r.1@ == self.sources()[source_id.0 - 1].content,
    ;

    /// The path of the source behind `source_id`.
    fn get_file_path(&self, source_id: SourceId) -> (r: String)
        requires
            self.wf(),
            1 <= source_id.0 <= self.sources().len(),
        ensures
            r@ == self.sources()[source_id.0 - 1].path,
    {
        self.get_file_path_and_content(source_id).0
    }

    /// The content of the source behind `source_id`.
    fn get_file_content(&self, source_id: SourceId) -> (r: String)
        requires
            self.wf(),
            1 <= source_id.0 <= self.sources().len(),
        ensures
            r@ == self.sources()[source_id.0 - 1].content,
    {
        self.get_file_path_and_content(source_id).1
    }

    /// The span that covers the whole content of the source behind
    /// `source_id`.
    fn get_file_whole_span(&self, source_id: SourceId) -> (r: SpanWithSource)
        requires
            self.wf(),
            1 <= source_id.0 <= self.sources().len(),
            encode_utf8(self.sources()[source_id.0 - 1].content).len() <= u32::MAX,
        ensures
            r.start == 0,
            r.end == encode_utf8(self.sources()[source_id.0 - 1].content).len(),
            r.source == source_id,
    ;
}

/// How a path map changes when a path is recorded; each implementation
/// states its own effect.
pub trait PathMap: Sized {
    /// The recorded association from paths to handles.
    spec fn path_map(&self) -> Map<Seq<char>, SourceId>;

    /// What `set_path` does to the map.
    spec fn set_path_ens(pre: Self, post: Self, path: Seq<char>, source: SourceId) -> bool;

    /// Records that `path` belongs to `source`.
    fn set_path(&mut self, path: String, source: SourceId)
        ensures
            Self::set_path_ens(*old(self), *final(self), path@, source),
    ;
}

/// A path map that records nothing.
pub struct NoPathMap;

impl PathMap for NoPathMap {
    open spec fn path_map(&self) -> Map<Seq<char>, SourceId> {
        Map::empty()
    }

    open spec fn set_path_ens(pre: Self, post: Self, path: Seq<char>, source: SourceId) -> bool {
        true
    }

    fn set_path(&mut self, path: String, source: SourceId) {
    }
}

/// The path-to-handle association of a list of recordings: a later
/// recording of the same path wins.
pub open spec fn path_map_of(entries: Seq<(String, SourceId)>) -> Map<Seq<char>, SourceId>
    decreases entries.len(),
{
    if entries.len() == 0 {
        Map::empty()
    } else {
        path_map_of(entries.drop_last()).insert(entries.last().0@, entries.last().1)
    }
}

/// A path map that keeps every recorded path.
pub struct WithPathMap(Vec<(String, SourceId)>);

impl PathMap for WithPathMap {
    closed spec fn path_map(&self) -> Map<Seq<char>, SourceId> {
        path_map_of(self.0@)
    }

    open spec fn set_path_ens(pre: Self, post: Self, path: Seq<char>, source: SourceId) -> bool {
        post.path_map() == pre.path_map().insert(path, source)
    }

    fn set_path(&mut self, path: String, source: SourceId) {
        let ghost pre = self.0@;
        self.0.push((path, source));
        proof {
            assert(self.0@.drop_last() =~= pre);
        }
    }
}

impl Default for NoPathMap {
    fn default() -> (r: Self)
        ensures
            r.path_map() == Map::<Seq<char>, SourceId>::empty(),
    {
        NoPathMap
    }
}

impl Default for WithPathMap {
    fn default() -> (r: Self)
        ensures
            r.path_map() == Map::<Seq<char>, SourceId>::empty(),
    {
        WithPathMap(Vec::new())
    }
}

/// An in-memory registry: a vector of sources indexed by `handle - 1`,
/// optionally paired with a map from paths to handles.
pub struct MapFileStore<T> {
    sources: Vec<Source>,
    mappings: T,
}

impl<M: PathMap> MapFileStore<M> {
    /// The registered sources as the contracts see them.
    pub closed spec fn sources_view(&self) -> Seq<SourceView> {
        self.sources@.map_values(
            |s: Source| SourceView { path: s.path@, content: s.content@ },
        )
    }

    /// The path map as the contracts see it.
    pub closed spec fn path_mappings(&self) -> M {
        self.mappings
    }

    /// Every stored line-start index matches its content.
    pub closed spec fn store_wf(&self) -> bool {
        forall|i: int| 0 <= i < self.sources@.len() ==> (#[trigger] self.sources@[i]).wf()
    }

    /// Registers a source: pushes it, records its path, and returns the
    /// new handle with the freshly computed line-start index.
    pub fn add_source(&mut self, path: String, content: String) -> (r: (SourceId, LineStarts))
        requires
            old(self).store_wf(),
            old(self).sources_view().len() + 1 <= u16::MAX,
        ensures
            final(self).store_wf(),
            final(self).sources_view() =~= old(self).sources_view().push(
                SourceView { path: path@, content: content@ },
            ),
            r.0.0 as int == old(self).sources_view().len() + 1,
            r.1@ == line_starts_spec(encode_utf8(content@)),
            r.1.wf(),
            M::set_path_ens(
                old(self).path_mappings(),
                final(self).path_mappings(),
                path@,
                r.0,
            ),
    {
        let line_starts = LineStarts::new(content.as_str());
        let stored = Source {
            path: path.clone(),
            content,
            line_starts: line_starts.clone(),
        };
        self.sources.push(stored);
        let source_id = SourceId(self.sources.len() as u16);
        self.mappings.set_path(path, source_id);
        (source_id, line_starts)
    }

    /// Replaces the content behind `id` and recomputes its line starts.
    pub fn update_file(&mut self, id: SourceId, content: String)
        requires
            old(self).store_wf(),
            1 <= id.0 <= old(self).sources_view().len(),
        ensures
            final(self).store_wf(),
            final(self).sources_view() =~= old(self).sources_view().update(
                id.0 - 1,
                SourceView {
                    path: old(self).sources_view()[id.0 - 1].path,
                    content: content@,
                },
            ),
            final(self).path_mappings() == old(self).path_mappings(),
    {
        let idx = (id.0 - 1) as usize;
        let line_starts = LineStarts::new(content.as_str());
        let path = self.sources[idx].path.clone();
        self.sources.set(idx, Source { path, content, line_starts });
    }

    /// Appends `content` to the file behind `id`, extending its line-start
    /// index in place; returns the old and the new byte length of the
    /// content.
    pub fn append_to_file(&mut self, id: SourceId, content: &str) -> (r: (usize, usize))
        requires
            old(self).store_wf(),
            1 <= id.0 <= old(self).sources_view().len(),
            encode_utf8(old(self).sources_view()[id.0 - 1].content).len()
                + content.spec_bytes().len() <= usize::MAX,
        ensures
            final(self).store_wf(),
            final(self).sources_view() =~= old(self).sources_view().update(
                id.0 - 1,
                SourceView {
                    path: old(self).sources_view()[id.0 - 1].path,
                    content: old(self).sources_view()[id.0 - 1].content + content@,
                },
            ),
            final(self).path_mappings() == old(self).path_mappings(),
            r.0 == encode_utf8(old(self).sources_view()[id.0 - 1].content).len(),
            r.1 == r.0 + content.spec_bytes().len(),
    {
        let idx = (id.0 - 1) as usize;
        let path = self.sources[idx].path.clone();
        let mut new_content = self.sources[idx].content.clone();
        let mut line_starts = self.sources[idx].line_starts.clone();
        let old_length = new_content.as_str().len();
        line_starts.append(old_length, content);
        new_content.append(content);
        let new_length = new_content.as_str().len();
        proof {
            lemma_encode_utf8_concat(
                old(self).sources_view()[id.0 - 1].content,
                content@,
            );
            crate::lines_columns_indexes::lemma_line_starts_append(
                encode_utf8(old(self).sources_view()[id.0 - 1].content),
                content.spec_bytes(),
            );
            crate::lines_columns_indexes::lemma_line_starts_wf(
                encode_utf8(old(self).sources_view()[id.0 - 1].content + content@),
            );
        }
        self.sources.set(idx, Source { path, content: new_content, line_starts });
        (old_length, new_length)
    }
}

/// `entries` with every recording of `key` dropped.
pub open spec fn drop_path(entries: Seq<(String, SourceId)>, key: Seq<char>) -> Seq<
    (String, SourceId),
>
    decreases entries.len(),
{
    if entries.len() == 0 {
        Seq::empty()
    } else {
        drop_path(entries.drop_last(), key) + (if entries.last().0@ != key {
            seq![entries.last()]
        } else {
            Seq::<(String, SourceId)>::empty()
        })
    }
}

/// The last recording of a key determines its handle in the
/// association.
proof fn lemma_path_map_value(entries: Seq<(String, SourceId)>, key: Seq<char>, j: int)
    requires
        0 <= j < entries.len(),
        entries[j].0@ == key,
        forall|l: int| j < l < entries.len() ==> (#[trigger] entries[l]).0@ != key,
    ensures
        path_map_of(entries).contains_key(key),
        path_map_of(entries)[key] == entries[j].1,
    decreases entries.len(),
{
    if j == entries.len() - 1 {
    } else {
        let dl = entries.drop_last();
        assert(entries[entries.len() - 1].0@ != key);
        assert(dl[j].0@ == key);
        assert forall|l: int| j < l < dl.len() implies (#[trigger] dl[l]).0@ != key by {
            assert(dl[l] == entries[l]);
        }
        lemma_path_map_value(dl, key, j);
    }
}

/// A key that no entry records is absent from the association.
proof fn lemma_path_map_absent(entries: Seq<(String, SourceId)>, key: Seq<char>)
    requires
        forall|l: int| 0 <= l < entries.len() ==> (#[trigger] entries[l]).0@ != key,
    ensures
        !path_map_of(entries).contains_key(key),
    decreases entries.len(),
{
    if entries.len() > 0 {
        let dl = entries.drop_last();
        assert forall|l: int| 0 <= l < dl.len() implies (#[trigger] dl[l]).0@ != key by {
            assert(dl[l] == entries[l]);
        }
        lemma_path_map_absent(dl, key);
        assert(entries[entries.len() - 1].0@ != key);
    }
}

/// Dropping a key from the recordings removes exactly that key from the
/// association.
proof fn lemma_drop_path_map(entries: Seq<(String, SourceId)>, key: Seq<char>)
    ensures
        path_map_of(drop_path(entries, key)) =~= path_map_of(entries).remove(key),
    decreases entries.len(),
{
    if entries.len() == 0 {
        assert(path_map_of(entries) =~= Map::<Seq<char>, SourceId>::empty());
    } else {
        let dl = entries.drop_last();
        lemma_drop_path_map(dl, key);
        if entries.last().0@ == key {
            assert(drop_path(entries, key) =~= drop_path(dl, key));
        } else {
            assert(drop_path(entries, key).drop_last() =~= drop_path(dl, key));
            assert(drop_path(entries, key).last() == entries.last());
        }
    }
}

impl MapFileStore<WithPathMap> {
    /// Every handle the path map records refers to a registered source.
    pub open spec fn paths_wf(&self) -> bool {
        forall|k: Seq<char>|
            #[trigger] self.path_mappings().path_map().contains_key(k) ==> 1
                <= self.path_mappings().path_map()[k].0 <= self.sources_view().len()
    }

    /// A possible [`SourceId`] for a path.
    pub fn get_source_at_path(&self, path: &str) -> (r: Option<SourceId>)
        ensures
            r == (if self.path_mappings().path_map().contains_key(path@) {
                Option::Some(self.path_mappings().path_map()[path@])
            } else {
                Option::None::<SourceId>
            }),
    {
        let n = self.mappings.0.len();
        let mut i = n;
        while i > 0
            invariant
                i <= n,
                n == self.mappings.0@.len(),
                forall|l: int| i <= l < n ==> (#[trigger] self.mappings.0@[l]).0@ != path@,
            decreases i,
        {
            if crate::text::str_eq(self.mappings.0[i - 1].0.as_str(), path) {
                proof {
                    lemma_path_map_value(self.mappings.0@, path@, i - 1);
                }
                return Option::Some(self.mappings.0[i - 1].1);
            }
            i = i - 1;
        }
        proof {
            lemma_path_map_absent(self.mappings.0@, path@);
        }
        Option::None
    }

    /// Updates an **existing** entry's content.
    pub fn update_file_at_path(&mut self, path: &str, content: String)
        requires
            old(self).store_wf(),
            old(self).paths_wf(),
            old(self).path_mappings().path_map().contains_key(path@),
        ensures
            final(self).store_wf(),
            final(self).paths_wf(),
            ({
                let id = old(self).path_mappings().path_map()[path@];
                final(self).sources_view() =~= old(self).sources_view().update(
                    id.0 - 1,
                    SourceView {
                        path: old(self).sources_view()[id.0 - 1].path,
                        content: content@,
                    },
                )
            }),
            final(self).path_mappings() == old(self).path_mappings(),
    {
        let id = match self.get_source_at_path(path) {
            Option::Some(id) => id,
            Option::None => {
                proof {
                    assert(false);
                }
                SourceId(1)
            },
        };
        self.update_file(id, content);
    }

    /// Updates the entry at `path` when one exists, and registers a new
    /// source there otherwise.
    pub fn create_or_update_file_at_path(&mut self, path: &str, content: String)
        requires
            old(self).store_wf(),
            old(self).paths_wf(),
            old(self).sources_view().len() + 1 <= u16::MAX,
        ensures
            final(self).store_wf(),
            final(self).paths_wf(),
            ({
                let map = old(self).path_mappings().path_map();
                if map.contains_key(path@) {
                    final(self).sources_view() =~= old(self).sources_view().update(
                        map[path@].0 - 1,
                        SourceView {
                            path: old(self).sources_view()[map[path@].0 - 1].path,
                            content: content@,
                        },
                    ) && final(self).path_mappings().path_map() == map
                } else {
                    final(self).sources_view() =~= old(self).sources_view().push(
                        SourceView { path: path@, content: content@ },
                    ) && final(self).path_mappings().path_map() == map.insert(
                        path@,
                        SourceId((old(self).sources_view().len() + 1) as u16),
                    )
                }
            }),
    {
        let existing = self.get_source_at_path(path);
        match existing {
            Option::Some(id) => {
                self.update_file(id, content);
            },
            Option::None => {
                let r = self.add_source(path.to_owned(), content);
                proof {
                    let map = old(self).path_mappings().path_map();
                    let newmap = self.path_mappings().path_map();
                    assert(newmap == map.insert(path@, r.0));
                    assert forall|k: Seq<char>|
                        #[trigger] newmap.contains_key(k) implies 1 <= newmap[k].0
                        <= self.sources_view().len() by {
                        if k != path@ {
                            assert(map.contains_key(k));
                        }
                    }
                }
            },
        }
    }

    /// Moves an **existing** entry from one path to another.
    pub fn change_file_path(&mut self, from: &str, to: String)
        requires
            old(self).store_wf(),
            old(self).paths_wf(),
            old(self).path_mappings().path_map().contains_key(from@),
        ensures
            final(self).store_wf(),
            final(self).paths_wf(),
            ({
                let id = old(self).path_mappings().path_map()[from@];
                &&& final(self).sources_view() =~= old(self).sources_view().update(
                    id.0 - 1,
                    SourceView {
                        path: to@,
                        content: old(self).sources_view()[id.0 - 1].content,
                    },
                )
                &&& final(self).path_mappings().path_map() == old(
                    self,
                ).path_mappings().path_map().remove(from@).insert(to@, id)
            }),
    {
        let id = match self.get_source_at_path(from) {
            Option::Some(id) => id,
            Option::None => {
                proof {
                    assert(false);
                }
                SourceId(1)
            },
        };
        let idx = (id.0 - 1) as usize;
        let content = self.sources[idx].content.clone();
        let line_starts = self.sources[idx].line_starts.clone();
        self.sources.set(idx, Source { path: to.clone(), content, line_starts });
        let ghost old_entries = self.mappings.0@;
        let n = self.mappings.0.len();
        let mut entries: Vec<(String, SourceId)> = Vec::new();
        let mut i: usize = 0;
        proof {
            assert(old_entries.subrange(0, 0) =~= Seq::<(String, SourceId)>::empty());
        }
        while i < n
            invariant
                i <= n,
                n == old_entries.len(),
                old_entries == self.mappings.0@,
                entries@ =~= drop_path(old_entries.subrange(0, i as int), from@),
            decreases n - i,
        {
            if !crate::text::str_eq(self.mappings.0[i].0.as_str(), from) {
                let kept = (self.mappings.0[i].0.clone(), self.mappings.0[i].1);
                proof {
                    assert(kept.0@ == old_entries[i as int].0@);
                    assert(kept.1 == old_entries[i as int].1);
                }
                entries.push(kept);
            }
            proof {
                assert(old_entries.subrange(0, i + 1int).drop_last() =~= old_entries.subrange(
                    0,
                    i as int,
                ));
                assert(old_entries.subrange(0, i + 1int).last() == old_entries[i as int]);
            }
            i = i + 1;
        }
        proof {
            assert(old_entries.subrange(0, n as int) =~= old_entries);
            lemma_drop_path_map(old_entries, from@);
        }
        let ghost filtered = entries@;
        entries.push((to, id));
        proof {
            assert(entries@.drop_last() =~= filtered);
        }
        self.mappings = WithPathMap(entries);
        proof {
            let map = old(self).path_mappings().path_map();
            let newmap = self.path_mappings().path_map();
            assert(newmap == map.remove(from@).insert(to@, id));
            assert forall|k: Seq<char>| #[trigger] newmap.contains_key(k) implies 1 <= newmap[k].0
                <= self.sources_view().len() by {
                if k != to@ {
                    assert(map.contains_key(k));
                }
            }
        }
    }
}

impl<M: PathMap> FileSystem for MapFileStore<M> {
    open spec fn sources(&self) -> Seq<SourceView> {
        self.sources_view()
    }

    open spec fn wf(&self) -> bool {
        self.store_wf()
    }

    fn new_source_id_with_line_starts(&mut self, path: String, content: String) -> (r: (
        SourceId,
        LineStarts,
    )) {
        self.add_source(path, content)
    }

    fn get_line_starts(&self, source_id: SourceId) -> (r: LineStarts) {
        self.sources[(source_id.0 - 1) as usize].line_starts.clone()
    }

    fn get_file_path_and_content(&self, source_id: SourceId) -> (r: (String, String)) {
        let idx = (source_id.0 - 1) as usize;
        (self.sources[idx].path.clone(), self.sources[idx].content.clone())
    }

    fn get_file_whole_span(&self, source_id: SourceId) -> (r: SpanWithSource) {
        let idx = (source_id.0 - 1) as usize;
        let len = self.sources[idx].content.as_str().len();
        SpanWithSource { start: 0, end: len as u32, source: source_id }
    }
}

impl Default for MapFileStore<NoPathMap> {
    fn default() -> (r: Self)
        ensures
            r.store_wf(),
            r.sources_view() =~= Seq::<SourceView>::empty(),
    {
        MapFileStore { sources: Vec::new(), mappings: NoPathMap }
    }
}

impl Default for MapFileStore<WithPathMap> {
    fn default() -> (r: Self)
        ensures
            r.store_wf(),
            r.sources_view() =~= Seq::<SourceView>::empty(),
            r.path_mappings().path_map() == Map::<Seq<char>, SourceId>::empty(),
    {
        MapFileStore { sources: Vec::new(), mappings: WithPathMap(Vec::new()) }
    }
}

} // verus!
