//! Building a new archive from named content.
//!
//! A builder collects content sources under unique entry paths, in the order
//! in which the paths were first added. Writing lays the archive out in three
//! phases: header and entry table with every content offset still zero, then
//! the content blocks, each on a 2048-byte boundary, then the offsets and the
//! two header fields that are known only once all content is placed.
use crate::codec::{array_of, lemma_array_held, set_u32, splice, u32_bytes};
use crate::error::MstError;
use crate::mst::entries::{CanonicalView, Entries, EntriesView, InnerEntries, InnerView};
use crate::mst::entry::{name_field, CanonicalEntry, EntryV180Variable, Filename};
use crate::mst::header::{MstCompilers, MstHeader};
use crate::mst::layout::{
    append_blocks, block_start, block_starts, least, lemma_least_first, lemma_low32,
    lemma_region, low32, low32_all, low32_of, low32s, patch_offsets, patched, region,
    slices_view,
};
use crate::mst::version::{classify, classify_platform, known_word};
use crate::mst::{
    Mst, MstBody, MstBodyView, MstIdentifier, MstPlatformKnown, MstVersion, MstVersionKnown,
    MstView,
};
use vstd::prelude::*;
use vstd::utf8::encode_utf8;

verus! {

/// Where the content of an entry comes from.
#[derive(Debug)]
pub enum MstBuilderEntrySource {
    /// `size` bytes of the file at `path`, from `offset` on.
    File { path: String, offset: usize, size: usize, timestamp: Option<u32> },
    /// The bytes of `data`.
    Memory { data: Vec<u8>, timestamp: Option<u32> },
}

/// What a content source holds.
pub enum SourceView {
    File { path: Seq<char>, offset: nat, size: nat, timestamp: Option<u32> },
    Memory { data: Seq<u8>, timestamp: Option<u32> },
}

impl View for MstBuilderEntrySource {
    type V = SourceView;

    open spec fn view(&self) -> SourceView {
        match *self {
            MstBuilderEntrySource::File {
                path,
                offset,
                size,
                timestamp,
            } => SourceView::File { path: path@, offset: offset as nat, size: size as nat, timestamp },
            MstBuilderEntrySource::Memory { data, timestamp } => SourceView::Memory {
                data: data@,
                timestamp,
            },
        }
    }
}

impl SourceView {
    /// The number of content bytes.
    pub open spec fn size(self) -> nat {
        match self {
            SourceView::File { size, .. } => size,
            SourceView::Memory { data, .. } => data.len(),
        }
    }

    /// The time stamp of the entry: the explicit one, or `now`.
    pub open spec fn timestamp_at(self, now: u32) -> u32 {
        let explicit = match self {
            SourceView::File { timestamp, .. } => timestamp,
            SourceView::Memory { timestamp, .. } => timestamp,
        };
        match explicit {
            Some(seconds) => seconds,
            None => now,
        }
    }
}

impl MstBuilderEntrySource {
    /// The number of content bytes.
    pub fn size(&self) -> (size: usize)
        ensures
            size == self@.size(),
    {
        match self {
            MstBuilderEntrySource::File { size, .. } => *size,
            MstBuilderEntrySource::Memory { data, .. } => data.len(),
        }
    }

    /// The time stamp of the entry: the explicit one, or `now`.
    pub fn timestamp_at(&self, now: u32) -> (seconds: u32)
        ensures
            seconds == self@.timestamp_at(now),
    {
        let explicit = match self {
            MstBuilderEntrySource::File { timestamp, .. } => *timestamp,
            MstBuilderEntrySource::Memory { timestamp, .. } => *timestamp,
        };
        match explicit {
            Some(seconds) => seconds,
            None => now,
        }
    }
}

/// One registered entry: its path and its content source.
#[derive(Debug)]
pub struct MstBuilderEntry {
    pub path: String,
    pub source: MstBuilderEntrySource,
}

/// What a registered entry holds.
pub struct BuilderEntryView {
    pub path: Seq<char>,
    pub source: SourceView,
}

impl View for MstBuilderEntry {
    type V = BuilderEntryView;

    open spec fn view(&self) -> BuilderEntryView {
        BuilderEntryView { path: self.path@, source: self.source@ }
    }
}

/// What the entries of `entries` hold, in order.
pub open spec fn entry_views(entries: Seq<MstBuilderEntry>) -> Seq<BuilderEntryView> {
    Seq::new(entries.len(), |i: int| entries[i]@)
}

/// Whether every path of `entries` occurs once.
pub open spec fn distinct_paths(entries: Seq<BuilderEntryView>) -> bool {
    forall|i: int, j: int|
        0 <= i < j < entries.len() ==> (#[trigger] entries[i]).path != (#[trigger] entries[j]).path
}

/// Where `path` stands in `entries`, or the length of `entries` where it
/// does not occur.
pub open spec fn position_of(entries: Seq<BuilderEntryView>, path: Seq<char>) -> nat
    decreases entries.len(),
{
    if entries.len() == 0 || entries[0].path == path {
        0
    } else {
        1 + position_of(entries.drop_first(), path)
    }
}

/// `entries` with `source` registered under `path`: in the place of the
/// entry of that path where there is one, and else at the end.
pub open spec fn registered(entries: Seq<BuilderEntryView>, path: Seq<char>, source: SourceView) -> Seq<
    BuilderEntryView,
> {
    let at = position_of(entries, path) as int;
    if at < entries.len() {
        entries.update(at, BuilderEntryView { path, source })
    } else {
        entries.push(BuilderEntryView { path, source })
    }
}

/// `position_of` gives the first place of `path`, or the length.
pub proof fn lemma_position_of(entries: Seq<BuilderEntryView>, path: Seq<char>)
    ensures
        position_of(entries, path) <= entries.len(),
        forall|j: int| 0 <= j < position_of(entries, path) ==> entries[j].path != path,
        position_of(entries, path) < entries.len() ==> entries[position_of(
            entries,
            path,
        ) as int].path == path,
    decreases entries.len(),
{
    if entries.len() != 0 && entries[0].path != path {
        let rest = entries.drop_first();
        lemma_position_of(rest, path);
        assert forall|j: int| 0 <= j < position_of(entries, path) implies entries[j].path
            != path by {
            if j > 0 {
                assert(rest[j - 1] == entries[j]);
            }
        }
        if position_of(rest, path) < rest.len() {
            assert(rest[position_of(rest, path) as int] == entries[position_of(
                entries,
                path,
            ) as int]);
        }
    }
}

/// A place is the result of `position_of` where nothing in front of it has
/// the path and it is the end or has the path.
pub proof fn lemma_position_is(entries: Seq<BuilderEntryView>, path: Seq<char>, at: int)
    requires
        0 <= at <= entries.len(),
        forall|j: int| 0 <= j < at ==> entries[j].path != path,
        at == entries.len() || entries[at].path == path,
    ensures
        position_of(entries, path) == at,
    decreases entries.len(),
{
    if entries.len() != 0 && entries[0].path != path {
        let rest = entries.drop_first();
        assert forall|j: int| 0 <= j < at - 1 implies rest[j].path != path by {
            assert(rest[j] == entries[j + 1]);
        }
        lemma_position_is(rest, path, at - 1);
    }
}

/// Registering keeps the paths distinct.
pub proof fn lemma_registered_distinct(
    entries: Seq<BuilderEntryView>,
    path: Seq<char>,
    source: SourceView,
)
    requires
        distinct_paths(entries),
    ensures
        distinct_paths(registered(entries, path, source)),
{
    lemma_position_of(entries, path);
    let at = position_of(entries, path) as int;
    let after = registered(entries, path, source);
    assert forall|i: int, j: int| 0 <= i < j < after.len() implies (#[trigger] after[i]).path != (
    #[trigger] after[j]).path by {
        if at < entries.len() {
            assert(after[i].path == entries[i].path);
            assert(after[j].path == entries[j].path);
        } else {
            if j < entries.len() {
                assert(after[i] == entries[i] && after[j] == entries[j]);
            } else {
                assert(after[i] == entries[i]);
            }
        }
    }
}

/// Collects the content of a new archive and writes it.
#[derive(Debug)]
pub struct MstBuilder {
    platform: MstPlatformKnown,
    version: MstVersionKnown,
    compilers: MstCompilers,
    entry_sources: Vec<MstBuilderEntry>,
}

/// What a builder holds.
pub struct BuilderView {
    pub platform: MstPlatformKnown,
    pub version: MstVersionKnown,
    pub compilers: MstCompilers,
    pub entries: Seq<BuilderEntryView>,
}

impl View for MstBuilder {
    type V = BuilderView;

    closed spec fn view(&self) -> BuilderView {
        BuilderView {
            platform: self.platform,
            version: self.version,
            compilers: self.compilers,
            entries: entry_views(self.entry_sources@),
        }
    }
}

impl MstBuilder {
    /// Whether no path is registered twice. That holds of a new builder and
    /// stays so whatever is added.
    pub open spec fn well_formed(&self) -> bool {
        distinct_paths(self@.entries)
    }

    /// The number of registered entries.
    pub fn len(&self) -> (count: usize)
        ensures
            count == self@.entries.len(),
    {
        self.entry_sources.len()
    }

    /// A builder without entries for an archive of `version` on `platform`
    /// with the given compiler stamps.
    pub fn new(version: MstVersionKnown, platform: MstPlatformKnown, compilers: MstCompilers) -> (
        builder: Self
    )
        ensures
            builder@ == (BuilderView { platform, version, compilers, entries: Seq::empty() }),
            builder.well_formed(),
    {
        let builder = MstBuilder { platform, version, compilers, entry_sources: Vec::new() };
        assert(builder@.entries =~= Seq::empty());
        builder
    }

    /// A builder without entries that takes revision, platform and compiler
    /// stamps from `mst`. Fails where the version word of `mst` names no
    /// known platform, and else where it names no known revision.
    pub fn from_mst_empty(mst: &Mst) -> (builder: Result<Self, MstError>)
        ensures
            match builder {
                Ok(builder) => {
                    &&& classify_platform(mst@.body.version) == Ok::<MstPlatformKnown, MstError>(
                        builder@.platform,
                    )
                    &&& classify(mst@.body.version) == Ok::<MstVersionKnown, MstError>(
                        builder@.version,
                    )
                    &&& builder@.compilers == mst@.body.header.compilers
                    &&& builder@.entries == Seq::<BuilderEntryView>::empty()
                    &&& builder.well_formed()
                },
                Err(error) => {
                    &&& classify_platform(mst@.body.version) is Err ==> error
                        == MstError::UnknownPlatform
                    &&& classify_platform(mst@.body.version) is Ok ==> error
                        == MstError::UnknownVersion && classify(mst@.body.version) is Err
                },
            },
    {
        let platform = match MstPlatformKnown::try_from(mst.body.version()) {
            Ok(platform) => platform,
            Err(error) => {
                return Err(error);
            },
        };
        let version = match MstVersionKnown::try_from(mst.body.version()) {
            Ok(version) => version,
            Err(error) => {
                return Err(error);
            },
        };
        Ok(Self::new(version, platform, mst.body.header.compilers))
    }

    /// Sets the revision of the archive to be written.
    pub fn set_version(&mut self, version: &MstVersionKnown)
        ensures
            final(self)@ == (BuilderView { version: *version, ..old(self)@ }),
    {
        self.version = *version;
    }

    /// Where the entry of `path` stands, or the number of entries where
    /// there is none.
    fn find(&self, path: &String) -> (at: usize)
        ensures
            at == position_of(self@.entries, path@),
            at <= self.entry_sources@.len(),
    {
        let mut i: usize = 0;
        while i < self.entry_sources.len()
            invariant
                i <= self.entry_sources@.len(),
                forall|j: int| 0 <= j < i ==> self@.entries[j].path != path@,
            decreases self.entry_sources@.len() - i,
        {
            if self.entry_sources[i].path == *path {
                proof {
                    lemma_position_is(self@.entries, path@, i as int);
                }
                return i;
            }
            i += 1;
        }
        proof {
            lemma_position_is(self@.entries, path@, i as int);
        }
        i
    }

    /// Whether an entry is registered under `path`.
    pub fn has_entry(&self, path: String) -> (has: bool)
        ensures
            has == (exists|i: int| 0 <= i < self@.entries.len() && self@.entries[i].path == path@),
    {
        let at = self.find(&path);
        proof {
            lemma_position_of(self@.entries, path@);
        }
        at < self.entry_sources.len()
    }

    /// Registers `source` under `path`. An entry of that path keeps its place
    /// and gets the new source; a new path goes to the end.
    fn register(&mut self, path: String, source: MstBuilderEntrySource)
        ensures
            final(self)@ == (BuilderView {
                entries: registered(old(self)@.entries, path@, source@),
                ..old(self)@
            }),
            old(self).well_formed() ==> final(self).well_formed(),
    {
        proof {
            if self.well_formed() {
                lemma_registered_distinct(self@.entries, path@, source@);
            }
        }
        let at = self.find(&path);
        let ghost before = self@.entries;
        let entry = MstBuilderEntry { path, source };
        if at < self.entry_sources.len() {
            self.entry_sources.set(at, entry);
            assert(self@.entries =~= before.update(at as int, entry@));
        } else {
            self.entry_sources.push(entry);
            assert(self@.entries =~= before.push(entry@));
        }
    }

    /// Registers the bytes of `data` as the content of the entry `path`. A
    /// source that was registered under `path` before is replaced.
    pub fn add_entry_memory(&mut self, path: String, data: Vec<u8>, timestamp: Option<u32>)
        ensures
            final(self)@ == (BuilderView {
                entries: registered(
                    old(self)@.entries,
                    path@,
                    SourceView::Memory { data: data@, timestamp },
                ),
                ..old(self)@
            }),
            old(self).well_formed() ==> final(self).well_formed(),
    {
        self.register(path, MstBuilderEntrySource::Memory { data, timestamp });
    }

    /// Registers `size` bytes of the file `file_path`, from `offset` on, as
    /// the content of the entry `entry_path`. A source that was registered
    /// under `entry_path` before is replaced.
    pub fn add_entry_file(
        &mut self,
        entry_path: String,
        file_path: String,
        offset: usize,
        size: usize,
        timestamp: Option<u32>,
    )
        ensures
            final(self)@ == (BuilderView {
                entries: registered(
                    old(self)@.entries,
                    entry_path@,
                    SourceView::File {
                        path: file_path@,
                        offset: offset as nat,
                        size: size as nat,
                        timestamp,
                    },
                ),
                ..old(self)@
            }),
            old(self).well_formed() ==> final(self).well_formed(),
    {
        self.register(
            entry_path,
            MstBuilderEntrySource::File { path: file_path, offset, size, timestamp },
        );
    }
}

/// A file that content sources may refer to: its path and all its bytes.
#[derive(Debug)]
pub struct SourceFile {
    pub path: String,
    pub data: Vec<u8>,
}

/// What a source file holds.
pub struct FileView {
    pub path: Seq<char>,
    pub data: Seq<u8>,
}

impl View for SourceFile {
    type V = FileView;

    open spec fn view(&self) -> FileView {
        FileView { path: self.path@, data: self.data@ }
    }
}

/// What the files of `files` hold, in order.
pub open spec fn file_views(files: Seq<SourceFile>) -> Seq<FileView> {
    Seq::new(files.len(), |i: int| files[i]@)
}

/// Where the first file of `path` stands in `files`, or the length of
/// `files` where there is none.
pub open spec fn file_position(files: Seq<FileView>, path: Seq<char>) -> nat
    decreases files.len(),
{
    if files.len() == 0 || files[0].path == path {
        0
    } else {
        1 + file_position(files.drop_first(), path)
    }
}

/// A place is the result of `file_position` where no file in front of it has
/// the path and it is the end or has the path.
pub proof fn lemma_file_position_is(files: Seq<FileView>, path: Seq<char>, at: int)
    requires
        0 <= at <= files.len(),
        forall|j: int| 0 <= j < at ==> files[j].path != path,
        at == files.len() || files[at].path == path,
    ensures
        file_position(files, path) == at,
    decreases files.len(),
{
    if files.len() != 0 && files[0].path != path {
        let rest = files.drop_first();
        assert forall|j: int| 0 <= j < at - 1 implies rest[j].path != path by {
            assert(rest[j] == files[j + 1]);
        }
        lemma_file_position_is(rest, path, at - 1);
    }
}

/// All bytes of the first file of `path`, or `Io` where no file has the path.
pub open spec fn input_of(files: Seq<FileView>, path: Seq<char>) -> Result<Seq<u8>, MstError> {
    let at = file_position(files, path) as int;
    if at >= files.len() {
        Err(MstError::Io)
    } else {
        Ok(files[at].data)
    }
}

/// The `size` bytes of `data` from `offset` on, or `Io` where the range is
/// not empty and ends behind the end of `data`.
pub open spec fn range_of(data: Seq<u8>, offset: nat, size: nat) -> Result<Seq<u8>, MstError> {
    if size == 0 {
        Ok(Seq::empty())
    } else if offset + size <= data.len() {
        Ok(data.subrange(offset as int, (offset + size) as int))
    } else {
        Err(MstError::Io)
    }
}

/// The content that `source` gives with the files `files`: the bytes of a
/// memory source; of a file source the named range of the first file of its
/// path. `Io` where no file has the path, or where the range is not empty and
/// ends behind the end of the file.
pub open spec fn content_of(source: SourceView, files: Seq<FileView>) -> Result<Seq<u8>, MstError> {
    match source {
        SourceView::Memory { data, .. } => Ok(data),
        SourceView::File { path, offset, size, .. } => match input_of(files, path) {
            Err(error) => Err(error),
            Ok(data) => range_of(data, offset, size),
        },
    }
}

/// The contents of all `entries`, in order, or `Io` where one of them cannot
/// be had.
pub open spec fn contents_of(entries: Seq<BuilderEntryView>, files: Seq<FileView>) -> Result<
    Seq<Seq<u8>>,
    MstError,
> {
    if exists|i: int| 0 <= i < entries.len() && content_of(entries[i].source, files) is Err {
        Err(MstError::Io)
    } else {
        Ok(Seq::new(entries.len(), |i: int| content_of(entries[i].source, files)->Ok_0))
    }
}

/// What the finished archive holds that is made of a draft, whose content
/// offsets and sizes in the header are still to be set, and of the content
/// blocks of its live entries: the draft with the offset of each live entry
/// set to where its block starts, the file size set to the length of the
/// whole, and the start of the content region set to the least start of a
/// block, or to the length of the whole where there is no block. Each of
/// these values is stored with its low 32 bits.
pub open spec fn finished_view(draft: MstView, blocks: Seq<Seq<u8>>) -> MstView {
    let head = draft.encoding().len() as int;
    let total = head + region(blocks, head).len();
    let starts = block_starts(blocks, head);
    draft.moved(low32_all(starts)).sized(low32(total), low32(least(starts, total)))
}

/// The finished archive: what `finished_view` holds, then the content region.
pub open spec fn finished(draft: MstView, blocks: Seq<Seq<u8>>) -> Seq<u8> {
    finished_view(draft, blocks).encoding() + region(blocks, draft.encoding().len() as int)
}

/// The live entries of the finished archive are those of the draft with the
/// low 32 bits of the starts of the blocks as content offsets; the header is
/// that of the draft but for the file size and the start of the content
/// region; the stored archive is as long as the stored draft.
pub proof fn lemma_finished_view(draft: MstView, blocks: Seq<Seq<u8>>)
    requires
        draft.body.entries.live_count() == blocks.len(),
    ensures
        finished_view(draft, blocks).body.entries.canonical().entries == Seq::new(
            blocks.len(),
            |i: int|
                draft.body.entries.canonical().entries[i].at_offset(
                    low32(block_start(blocks, draft.encoding().len() as int, i)),
                ),
        ),
        finished_view(draft, blocks).body.entries.version() == draft.body.entries.version(),
        finished_view(draft, blocks).body.version == draft.body.version,
        finished_view(draft, blocks).identifier == draft.identifier,
        finished_view(draft, blocks).body.header == (MstHeader {
            bytes_in_file: low32(finished(draft, blocks).len() as int),
            data_offset: low32(
                least(
                    block_starts(blocks, draft.encoding().len() as int),
                    finished(draft, blocks).len() as int,
                ),
            ),
            ..draft.body.header
        }),
        finished_view(draft, blocks).encoding().len() == draft.encoding().len(),
        draft.body.entries.counted_by(draft.body.header) ==> finished_view(
            draft,
            blocks,
        ).body.entries.counted_by(finished_view(draft, blocks).body.header),
{
    let head = draft.encoding().len() as int;
    let starts = block_starts(blocks, head);
    let values = low32_all(starts);
    let view = finished_view(draft, blocks);
    draft.body.entries.lemma_moved_canonical(values);
    draft.lemma_moved_len(values, blocks.len() as int);
    draft.moved(values).lemma_encoding_parts();
    view.lemma_encoding_parts();
    draft.lemma_encoding_parts();
    assert(view.body.entries.canonical().entries =~= Seq::new(
        blocks.len(),
        |i: int| draft.body.entries.canonical().entries[i].at_offset(low32(block_start(blocks, head, i))),
    ));
    let moved = draft.body.entries.moved(values);
    assert(view.body.entries == moved);
    if draft.body.entries.counted_by(draft.body.header) {
        assert(moved.counted_by(draft.body.header));
        match moved {
            EntriesView::V180PS2 { inner } => {
                assert(inner.counted_by(view.body.header));
            },
            EntriesView::V180 { inner } => {
                assert(inner.counted_by(view.body.header));
            },
            EntriesView::V170 { inner } => {
                assert(inner.counted_by(view.body.header));
            },
            EntriesView::V160 { inner } => {
                assert(inner.counted_by(view.body.header));
            },
        }
    }
}

/// The layout of a finished archive. Every live entry has the low 32 bits of
/// the start of its block as its content offset, and that is a multiple of
/// 2048. Each block stands in the archive where it starts. The header holds
/// the low 32 bits of the length of the whole. Where the whole is no longer
/// than 32 bits can say, the content offsets are the starts of the blocks,
/// and the start of the content region is the least of them, or the length
/// of the whole, which is that of the draft, where there is no entry.
pub proof fn lemma_finished_layout(draft: MstView, blocks: Seq<Seq<u8>>)
    requires
        draft.body.entries.live_count() == blocks.len(),
    ensures
        finished_view(draft, blocks).body.entries.canonical().entries.len() == blocks.len(),
        forall|i: int|
            0 <= i < blocks.len() ==> (#[trigger] finished_view(
                draft,
                blocks,
            ).body.entries.canonical().entries[i]).offset % 2048 == 0,
        forall|i: int|
            0 <= i < blocks.len() ==> finished(draft, blocks).subrange(
                #[trigger] block_start(blocks, draft.encoding().len() as int, i),
                block_start(blocks, draft.encoding().len() as int, i) + blocks[i].len(),
            ) == blocks[i],
        finished_view(draft, blocks).body.header.bytes_in_file == low32(
            finished(draft, blocks).len() as int,
        ),
        finished(draft, blocks).len() <= u32::MAX ==> {
            &&& forall|i: int|
                0 <= i < blocks.len() ==> (#[trigger] finished_view(
                    draft,
                    blocks,
                ).body.entries.canonical().entries[i]).offset == block_start(
                    blocks,
                    draft.encoding().len() as int,
                    i,
                )
            &&& forall|i: int|
                0 <= i < blocks.len() ==> finished_view(draft, blocks).body.header.data_offset
                    <= (#[trigger] finished_view(
                    draft,
                    blocks,
                ).body.entries.canonical().entries[i]).offset
            &&& blocks.len() > 0 ==> finished_view(draft, blocks).body.header.data_offset
                == finished_view(draft, blocks).body.entries.canonical().entries[0].offset
            &&& blocks.len() == 0 ==> finished_view(draft, blocks).body.header.data_offset
                == draft.encoding().len() && finished(draft, blocks).len()
                == draft.encoding().len()
        },
{
    let head = draft.encoding().len() as int;
    let body = region(blocks, head);
    let total = head + body.len();
    let starts = block_starts(blocks, head);
    let view = finished_view(draft, blocks);
    let entries = view.body.entries.canonical().entries;
    lemma_finished_view(draft, blocks);
    lemma_region(blocks, head, view.encoding());
    lemma_least_first(starts, total);
    assert(finished(draft, blocks).len() == total);
    assert forall|i: int| 0 <= i < blocks.len() implies (#[trigger] entries[i]).offset % 2048
        == 0 by {
        assert(block_start(blocks, head, i) % 2048 == 0);
        lemma_low32(block_start(blocks, head, i));
    }
    if total <= u32::MAX {
        lemma_low32(total);
        assert forall|i: int| 0 <= i < blocks.len() implies (#[trigger] entries[i]).offset
            == block_start(blocks, head, i) && view.body.header.data_offset <= entries[i].offset by {
            assert(block_start(blocks, head, i) + blocks[i].len() <= total);
            lemma_low32(block_start(blocks, head, i));
            lemma_low32(starts[0]);
            assert(starts[0] == block_start(blocks, head, 0));
            assert(starts[i] == block_start(blocks, head, i));
        }
        if blocks.len() > 0 {
            assert(starts[0] == block_start(blocks, head, 0));
            assert(block_start(blocks, head, 0) + blocks[0].len() <= total);
            lemma_low32(starts[0]);
        }
    }
}

impl BuilderView {
    /// The canonical entry that is made for the registered entry `entry` at
    /// the time `now`: the name made from the path, the low 32 bits of the
    /// size, the explicit time stamp or `now`, and zero for the offset, the
    /// flags and the checksum.
    pub open spec fn entry_at(entry: BuilderEntryView, now: u32) -> CanonicalEntry {
        EntryV180Variable {
            filename: Filename::<20>::of(name_field(encode_utf8(entry.path), 20)),
            flags: 0,
            offset: 0,
            size: low32(entry.source.size() as int),
            timestamp: entry.source.timestamp_at(now),
            crc: 0,
        }
    }

    /// The canonical table of the builder at the time `now`: one live entry
    /// for each registered entry, in order, and nothing else.
    pub open spec fn table_at(self, now: u32) -> CanonicalView {
        InnerView {
            entries: Seq::new(self.entries.len(), |i: int| Self::entry_at(self.entries[i], now)),
            free_entries: Seq::empty(),
            support_entries: Seq::empty(),
            free_support_entries: Seq::empty(),
        }
    }

    /// The table of the builder's revision at the time `now`.
    pub open spec fn entries_at(self, now: u32) -> EntriesView {
        EntriesView::projected(self.version, self.table_at(now))
    }

    /// The archive before its content is placed: the marker and the version
    /// word of the platform and revision, a header with the number of
    /// entries and the compiler stamps, and the table with every content
    /// offset zero.
    pub open spec fn draft(self, now: u32) -> MstView {
        MstView {
            identifier: if self.platform == MstPlatformKnown::GameCube {
                MstIdentifier::FangBigEndian
            } else {
                MstIdentifier::FangLittleEndian
            },
            body: MstBodyView {
                version: known_word(self.version, self.platform),
                header: MstHeader {
                    bytes_in_file: 0,
                    num_entries: low32(self.entries.len() as int),
                    num_free_entries: 0,
                    num_support_entries: 0,
                    num_free_support_entries: 0,
                    data_offset: 0,
                    compilers: self.compilers,
                    reserved: array_of(Seq::new(9, |i: int| 0u32)),
                },
                entries: self.entries_at(now),
            },
        }
    }

    /// What writing the builder at the time `now` with the files `files`
    /// gives: the error of the draft where it cannot be written, else `Io`
    /// where the content of an entry cannot be had, else the finished archive.
    pub open spec fn written(self, now: u32, files: Seq<FileView>) -> Result<Seq<u8>, MstError> {
        match self.draft(now).written() {
            Err(error) => Err(error),
            Ok(_) => match contents_of(self.entries, files) {
                Err(error) => Err(error),
                Ok(blocks) => Ok(finished(self.draft(now), blocks)),
            },
        }
    }
}

/// The seconds since 1970-01-01 00:00:00 UTC at the moment of the call, as
/// `chrono::Utc::now().timestamp()` gives them, cut to 32 bits.
///
/// Trusted: nothing is claimed of the result. The call panics where the
/// system clock stands before 1970.
#[verifier::external_body]
fn now() -> (seconds: u32) {
    chrono::Utc::now().timestamp() as u32
}

/// What a fallible result of a slice holds.
pub open spec fn slice_outcome(result: Result<&[u8], MstError>) -> Result<Seq<u8>, MstError> {
    match result {
        Ok(bytes) => Ok(bytes@),
        Err(error) => Err(error),
    }
}

/// All bytes of the first file of `path`, or `Io` where no file has the path.
pub fn input<'a>(files: &'a Vec<SourceFile>, path: &String) -> (data: Result<&'a [u8], MstError>)
    ensures
        slice_outcome(data) == input_of(file_views(files@), path@),
{
    let ghost views = file_views(files@);
    let mut i: usize = 0;
    while i < files.len() && files[i].path != *path
        invariant
            i <= files@.len(),
            views == file_views(files@),
            forall|j: int| 0 <= j < i ==> views[j].path != path@,
        decreases files@.len() - i,
    {
        i += 1;
    }
    proof {
        lemma_file_position_is(views, path@, i as int);
    }
    if i >= files.len() {
        return Err(MstError::Io);
    }
    Ok(files[i].data.as_slice())
}

/// The `size` bytes of `data` from `offset` on, or `Io` where the range is
/// not empty and ends behind the end of `data`.
pub fn range<'a>(data: &'a [u8], offset: usize, size: usize) -> (part: Result<&'a [u8], MstError>)
    ensures
        slice_outcome(part) == range_of(data@, offset as nat, size as nat),
{
    if size == 0 {
        let empty = vstd::slice::slice_subrange(data, 0, 0);
        assert(empty@ =~= Seq::<u8>::empty());
        Ok(empty)
    } else if size <= data.len() && offset <= data.len() - size {
        Ok(vstd::slice::slice_subrange(data, offset, offset + size))
    } else {
        Err(MstError::Io)
    }
}

impl MstBuilder {
    /// The table of the builder's revision at the time `now`: one live entry
    /// for each registered entry, in order, with the content offset zero.
    pub fn create_entries_at(&self, now: u32) -> (entries: Entries)
        ensures
            entries@ == self@.entries_at(now),
    {
        let mut canonical: Vec<CanonicalEntry> = Vec::new();
        let mut i: usize = 0;
        while i < self.entry_sources.len()
            invariant
                i <= self.entry_sources@.len(),
                canonical@.len() == i,
                forall|j: int|
                    0 <= j < i ==> #[trigger] canonical@[j] == BuilderView::entry_at(
                        self@.entries[j],
                        now,
                    ),
            decreases self.entry_sources@.len() - i,
        {
            let entry = &self.entry_sources[i];
            canonical.push(
                EntryV180Variable {
                    filename: Filename::<20>::named(entry.path.as_str()),
                    flags: 0,
                    offset: 0,
                    size: low32_of(entry.source.size()),
                    timestamp: entry.source.timestamp_at(now),
                    crc: 0,
                },
            );
            i += 1;
        }
        let table = InnerEntries {
            entries: canonical,
            free_entries: Vec::new(),
            support_entries: Vec::new(),
            free_support_entries: Vec::new(),
        };
        proof {
            assert(table@.entries =~= self@.table_at(now).entries);
            assert(table@.free_entries =~= self@.table_at(now).free_entries);
            assert(table@.support_entries =~= self@.table_at(now).support_entries);
            assert(table@.free_support_entries =~= self@.table_at(now).free_support_entries);
        }
        Entries::from_canonical(self.version, table)
    }

    /// The table of the builder's revision at the present time.
    pub fn create_entries(&self) -> (entries: Entries)
        ensures
            exists|now: u32| entries@ == self@.entries_at(now),
    {
        self.create_entries_at(now())
    }

    /// The archive before its content is placed, at the time `now`.
    pub fn create_mst_at(&self, now: u32) -> (mst: Mst)
        ensures
            mst@ == self@.draft(now),
    {
        let reserved = [0u32, 0u32, 0u32, 0u32, 0u32, 0u32, 0u32, 0u32, 0u32];
        proof {
            assert(reserved@ =~= Seq::new(9, |i: int| 0u32));
            lemma_array_held::<u32, 9>(reserved);
        }
        Mst {
            identifier: MstIdentifier::from_known(self.platform),
            body: MstBody {
                version: MstVersion::from_known(self.version, self.platform),
                header: MstHeader {
                    bytes_in_file: 0,
                    num_entries: low32_of(self.entry_sources.len()),
                    num_free_entries: 0,
                    num_support_entries: 0,
                    num_free_support_entries: 0,
                    data_offset: 0,
                    compilers: self.compilers,
                    reserved,
                },
                entries: self.create_entries_at(now),
            },
        }
    }

    /// The archive before its content is placed, at the present time.
    pub fn create_mst(&self) -> (mst: Mst)
        ensures
            exists|now: u32| mst@ == self@.draft(now),
    {
        self.create_mst_at(now())
    }

    /// The content of every entry, in order, with the files `files`.
    fn resolve<'a>(&'a self, files: &'a Vec<SourceFile>) -> (blocks: Result<Vec<&'a [u8]>, MstError>)
        ensures
            match blocks {
                Ok(blocks) => contents_of(self@.entries, file_views(files@)) == Ok::<
                    Seq<Seq<u8>>,
                    MstError,
                >(slices_view(blocks@)),
                Err(error) => contents_of(self@.entries, file_views(files@)) == Err::<
                    Seq<Seq<u8>>,
                    MstError,
                >(error),
            },
    {
        let ghost views = file_views(files@);
        let mut blocks: Vec<&'a [u8]> = Vec::new();
        let mut i: usize = 0;
        while i < self.entry_sources.len()
            invariant
                i <= self.entry_sources@.len(),
                views == file_views(files@),
                blocks@.len() == i,
                forall|j: int|
                    0 <= j < i ==> content_of(self@.entries[j].source, views) == Ok::<
                        Seq<u8>,
                        MstError,
                    >(#[trigger] blocks@[j]@),
            decreases self.entry_sources@.len() - i,
        {
            let block: &'a [u8] = match &self.entry_sources[i].source {
                MstBuilderEntrySource::Memory { data, .. } => data.as_slice(),
                MstBuilderEntrySource::File { path, offset, size, .. } => {
                    let data = match input(files, path) {
                        Ok(data) => data,
                        Err(error) => {
                            assert(content_of(self@.entries[i as int].source, views) is Err);
                            return Err(MstError::Io);
                        },
                    };
                    match range(data, *offset, *size) {
                        Ok(part) => part,
                        Err(error) => {
                            assert(content_of(self@.entries[i as int].source, views) is Err);
                            return Err(MstError::Io);
                        },
                    }
                },
            };
            blocks.push(block);
            i += 1;
        }
        proof {
            assert forall|j: int| 0 <= j < self@.entries.len() implies !(content_of(
                self@.entries[j].source,
                views,
            ) is Err) by {
                assert(content_of(self@.entries[j].source, views) == Ok::<Seq<u8>, MstError>(
                    blocks@[j]@,
                ));
            }
            assert(slices_view(blocks@) =~= Seq::new(
                self@.entries.len(),
                |k: int| content_of(self@.entries[k].source, views)->Ok_0,
            ));
        }
        Ok(blocks)
    }
}

/// The three overwriting steps of the last phase turn the draft followed by
/// the content region into the finished archive.
pub proof fn lemma_finish(
    draft: MstView,
    contents: Seq<Seq<u8>>,
    sites: Seq<usize>,
    offsets: Seq<usize>,
    file_size: int,
    data_offset: int,
)
    requires
        draft.body.entries.has_sites(sites, 108),
        draft.body.entries.live_count() == contents.len(),
        offsets.len() == contents.len(),
        forall|i: int|
            0 <= i < contents.len() ==> #[trigger] offsets[i] == block_start(
                contents,
                draft.encoding().len() as int,
                i,
            ),
        file_size == draft.encoding().len() + region(
            contents,
            draft.encoding().len() as int,
        ).len(),
        data_offset == least(
            block_starts(contents, draft.encoding().len() as int),
            file_size,
        ),
    ensures
        sites.len() == contents.len(),
        forall|i: int| 0 <= i < sites.len() ==> #[trigger] sites[i] + 4 <= draft.encoding().len(),
        draft.encoding().len() >= 108,
        patched(
            splice(
                splice(
                    draft.encoding() + region(contents, draft.encoding().len() as int),
                    8,
                    u32_bytes(low32(file_size), draft.little()),
                ),
                28,
                u32_bytes(low32(data_offset), draft.little()),
            ),
            sites,
            offsets,
            draft.little(),
            sites.len(),
        ) == finished(draft, contents),
{
    let little = draft.little();
    let head = draft.encoding().len() as int;
    let body = region(contents, head);
    let starts = block_starts(contents, head);
    let values = low32s(offsets);
    assert(values =~= low32_all(starts));
    draft.lemma_encoding_parts();
    draft.lemma_word_patch(body, 0, low32(file_size));
    let first = draft.sized(low32(file_size), draft.body.header.data_offset);
    first.lemma_word_patch(body, 5, low32(data_offset));
    let sized = draft.sized(low32(file_size), low32(data_offset));
    assert(first.sized(low32(file_size), low32(data_offset)) == sized);
    sized.lemma_encoding_parts();
    assert(sized.body.entries == draft.body.entries);
    assert(sites.len() == draft.body.entries.live_count());
    assert forall|i: int| 0 <= i < sites.len() implies #[trigger] sites[i] + 4 <= head by {
        draft.body.entries.lemma_moved_step(values, i, little);
        draft.lemma_moved_len(values, i);
    }
    sized.lemma_patched(body, sites, offsets, sites.len());
    assert(sized.moved(values) == draft.moved(values).sized(
        low32(file_size),
        low32(data_offset),
    ));
}

/// Whether an archive of `version` can be written for `platform`: the
/// revision with names of 20 bytes goes with the PlayStation 2 and with no
/// other platform, and version 1.8.0 with names of 16 bytes goes with every
/// platform but the PlayStation 2.
pub open spec fn compatible(version: MstVersionKnown, platform: MstPlatformKnown) -> bool {
    match version {
        MstVersionKnown::V180PS2 => platform == MstPlatformKnown::PlayStation2,
        MstVersionKnown::V180 => platform != MstPlatformKnown::PlayStation2,
        _ => true,
    }
}

impl BuilderView {
    /// Whether every registered entry has an explicit time stamp.
    pub open spec fn all_stamped(self) -> bool {
        forall|i: int|
            0 <= i < self.entries.len() ==> (#[trigger] self.entries[i]).source.timestamp_at(0)
                == self.entries[i].source.timestamp_at(1)
    }

    /// The draft has one live entry for each registered entry and nothing
    /// else in its table, and its header counts what the table holds as far
    /// as 32 bits can say.
    pub proof fn lemma_draft_live_count(self, now: u32)
        ensures
            self.draft(now).body.entries.live_count() == self.entries.len(),
            self.draft(now).body.entries.version() == self.version,
            self.draft(now).identifier.proper(),
            self.entries.len() <= u32::MAX ==> self.draft(now).body.entries.counted_by(
                self.draft(now).body.header,
            ),
            self.draft(now).body.entries.canonical().free_entries.len() == 0,
            self.draft(now).body.entries.canonical().support_entries.len() == 0,
            self.draft(now).body.entries.canonical().free_support_entries.len() == 0,
    {
    }

    /// The draft can be written exactly when revision and platform are
    /// compatible; else writing fails with `LayoutMismatch`.
    pub proof fn lemma_draft_written(self, now: u32)
        ensures
            compatible(self.version, self.platform) ==> self.draft(now).written() == Ok::<
                Seq<u8>,
                MstError,
            >(self.draft(now).encoding()) && self.draft(now).body.consistent(),
            !compatible(self.version, self.platform) ==> self.draft(now).written() == Err::<
                Seq<u8>,
                MstError,
            >(MstError::LayoutMismatch),
    {
        let minor = crate::mst::version::minor_for(self.version);
        let bit = crate::mst::version::bit_for(self.platform);
        crate::mst::version::lemma_known_word_fields(minor, bit, crate::mst::version::PS2_BIT);
        self.lemma_draft_live_count(now);
    }

    /// The empty table of each revision is stored in no bytes.
    pub proof fn lemma_empty_table(self, now: u32)
        requires
            self.entries.len() == 0,
        ensures
            self.draft(now).encoding().len() == 108,
    {
        self.draft(now).lemma_encoding_parts();
        let table = self.table_at(now);
        match self.version {
            MstVersionKnown::V180PS2 => {
                let inner = InnerView::<EntryV180Variable<20>, crate::mst::entry::SupportEntryVariable<20>>::projected(table);
                assert(inner.encoding(true).len() == 0 && inner.encoding(false).len() == 0);
            },
            MstVersionKnown::V180 => {
                let inner = InnerView::<EntryV180Variable<16>, crate::mst::entry::SupportEntryVariable<16>>::projected(table);
                assert(inner.encoding(true).len() == 0 && inner.encoding(false).len() == 0);
            },
            MstVersionKnown::V170 => {
                let inner = InnerView::<crate::mst::entry::EntryV170, crate::mst::entry::SupportEntryVariable<16>>::projected(table);
                assert(inner.encoding(true).len() == 0 && inner.encoding(false).len() == 0);
            },
            MstVersionKnown::V160 => {
                let inner = InnerView::<crate::mst::entry::EntryV160, crate::mst::entry::SupportEntryVariable<16>>::projected(table);
                assert(inner.encoding(true).len() == 0 && inner.encoding(false).len() == 0);
            },
        }
    }

    /// What was written is the finished archive of the draft and the
    /// contents of the entries. Where the entries are no more than 32 bits
    /// can count, reading it gives what `finished_view` says.
    pub proof fn lemma_written(self, now: u32, files: Seq<FileView>)
        requires
            self.written(now, files) is Ok,
        ensures
            contents_of(self.entries, files) is Ok,
            contents_of(self.entries, files)->Ok_0.len() == self.entries.len(),
            self.draft(now).body.entries.live_count() == self.entries.len(),
            self.written(now, files)->Ok_0 == finished(
                self.draft(now),
                contents_of(self.entries, files)->Ok_0,
            ),
            self.entries.len() <= u32::MAX ==> MstView::parsed(self.written(now, files)->Ok_0)
                == Ok::<MstView, MstError>(
                finished_view(self.draft(now), contents_of(self.entries, files)->Ok_0),
            ),
    {
        let draft = self.draft(now);
        let blocks = contents_of(self.entries, files)->Ok_0;
        self.lemma_draft_live_count(now);
        self.lemma_draft_written(now);
        lemma_finished_view(draft, blocks);
        if self.entries.len() <= u32::MAX {
            let view = finished_view(draft, blocks);
            assert(view.well_formed());
            view.lemma_write_read(region(blocks, draft.encoding().len() as int));
        }
    }

    /// An archive without entries is written as its header alone: 108 bytes,
    /// with 108 as the file size and as the start of the content region.
    pub proof fn lemma_empty_archive(self, now: u32, files: Seq<FileView>)
        requires
            self.entries.len() == 0,
            compatible(self.version, self.platform),
        ensures
            self.written(now, files) is Ok,
            self.written(now, files)->Ok_0.len() == 108,
            self.written(now, files)->Ok_0 == self.draft(now).sized(108, 108).encoding(),
            MstView::parsed(self.written(now, files)->Ok_0) == Ok::<MstView, MstError>(
                self.draft(now).sized(108, 108),
            ),
            self.draft(now).sized(108, 108).body.header.bytes_in_file == 108,
            self.draft(now).sized(108, 108).body.header.data_offset == 108,
            self.draft(now).sized(108, 108).body.header.num_entries == 0,
            self.draft(now).sized(108, 108).body.entries.live_count() == 0,
    {
        let draft = self.draft(now);
        let blocks = Seq::<Seq<u8>>::empty();
        assert(contents_of(self.entries, files) == Ok::<Seq<Seq<u8>>, MstError>(blocks)) by {
            assert(contents_of(self.entries, files)->Ok_0 =~= blocks);
        }
        self.lemma_draft_written(now);
        self.lemma_empty_table(now);
        self.lemma_written(now, files);
        lemma_finished_view(draft, blocks);
        lemma_finished_layout(draft, blocks);
        let view = finished_view(draft, blocks);
        assert(region(blocks, 108) =~= Seq::<u8>::empty());
        assert(view.encoding() + Seq::<u8>::empty() =~= view.encoding());
        lemma_low32(108);
        assert(block_starts(blocks, 108) =~= Seq::<int>::empty());
        assert(low32_all(block_starts(blocks, 108)) =~= Seq::<u32>::empty());
        draft.lemma_moved_len(Seq::<u32>::empty(), 0);
        assert(draft.moved(Seq::<u32>::empty()) == draft) by {
            draft.body.entries.lemma_moved_canonical(Seq::<u32>::empty());
            match draft.body.entries {
                EntriesView::V180PS2 { inner } => {
                    assert(inner.moved(Seq::<u32>::empty()).entries =~= inner.entries);
                },
                EntriesView::V180 { inner } => {
                    assert(inner.moved(Seq::<u32>::empty()).entries =~= inner.entries);
                },
                EntriesView::V170 { inner } => {
                    assert(inner.moved(Seq::<u32>::empty()).entries =~= inner.entries);
                },
                EntriesView::V160 { inner } => {
                    assert(inner.moved(Seq::<u32>::empty()).entries =~= inner.entries);
                },
            }
        }
    }

    /// Writing is a function of what the builder holds, of the time and of
    /// the files: builders that hold the same, that is the same revision,
    /// platform and stamps and the same entries in the same order, write the
    /// same bytes. Where every entry has an explicit time stamp, the time
    /// does not matter either.
    pub proof fn lemma_deterministic(
        self,
        other: BuilderView,
        now: u32,
        other_now: u32,
        files: Seq<FileView>,
    )
        requires
            self == other,
            now == other_now || self.all_stamped(),
        ensures
            self.written(now, files) == other.written(other_now, files),
    {
        if self.all_stamped() {
            assert forall|i: int| 0 <= i < self.entries.len() implies Self::entry_at(
                self.entries[i],
                now,
            ) == Self::entry_at(self.entries[i], other_now) by {
                let source = self.entries[i].source;
                assert(source.timestamp_at(0) == source.timestamp_at(1));
            }
            assert(self.table_at(now).entries =~= self.table_at(other_now).entries);
        }
    }
}

/// What a fallible result of bytes holds.
pub open spec fn outcome(result: Result<Vec<u8>, MstError>) -> Result<Seq<u8>, MstError> {
    match result {
        Ok(bytes) => Ok(bytes@),
        Err(error) => Err(error),
    }
}

/// The least of `values`, or `otherwise` where there is none.
fn least_of(values: &Vec<usize>, otherwise: usize) -> (least_one: usize)
    ensures
        least_one == least(Seq::new(values@.len(), |i: int| values@[i] as int), otherwise as int),
{
    let ghost all = Seq::new(values@.len(), |i: int| values@[i] as int);
    if values.len() == 0 {
        return otherwise;
    }
    let mut least_one: usize = values[0];
    let mut i: usize = 1;
    assert(all.subrange(0, 1).len() == 1);
    while i < values.len()
        invariant
            1 <= i <= values@.len(),
            all == Seq::new(values@.len(), |i: int| values@[i] as int),
            least_one == least(all.subrange(0, i as int), otherwise as int),
        decreases values@.len() - i,
    {
        let ghost upto = all.subrange(0, i + 1);
        assert(upto.drop_last() =~= all.subrange(0, i as int));
        assert(upto.last() == values@[i as int]);
        if values[i] < least_one {
            least_one = values[i];
        }
        i += 1;
    }
    assert(all.subrange(0, i as int) =~= all);
    least_one
}

impl MstBuilder {
    /// Writes the archive at the time `now`. A file source takes its content
    /// from the first of `files` that has its path.
    ///
    /// The archive is laid out in three phases. First come marker, version
    /// word, header and entry table, with every content offset zero, and the
    /// place of each offset is recorded. Then the content of each entry
    /// follows in order, behind zero bytes that bring it to a 2048-byte
    /// boundary. Last the recorded places are overwritten with the starts of
    /// the blocks, and the header gets the length of the whole and the
    /// least start of a block. Nothing is returned where a phase fails.
    pub fn write_at(self, now: u32, files: &Vec<SourceFile>) -> (archive: Result<Vec<u8>, MstError>)
        ensures
            self@.written(now, file_views(files@)) == outcome(archive),
    {
        let mst = self.create_mst_at(now);
        let little = mst.identifier.is_little();
        let mut out: Vec<u8> = Vec::new();
        let sites = match mst.write(&mut out) {
            Ok(sites) => sites,
            Err(error) => {
                return Err(error);
            },
        };
        let blocks = match self.resolve(files) {
            Ok(blocks) => blocks,
            Err(error) => {
                return Err(error);
            },
        };
        let ghost draft = mst@;
        let ghost contents = slices_view(blocks@);
        proof {
            assert(out@ =~= draft.encoding());
            self@.lemma_draft_live_count(now);
        }
        let offsets = append_blocks(&mut out, &blocks);
        let file_size: usize = out.len();
        let data_offset: usize = least_of(&offsets, file_size);
        proof {
            assert(Seq::new(offsets@.len(), |i: int| offsets@[i] as int) =~= block_starts(
                contents,
                draft.encoding().len() as int,
            ));
            lemma_finish(draft, contents, sites@, offsets@, file_size as int, data_offset as int);
        }
        set_u32(&mut out, crate::mst::FILE_SIZE_AT, low32_of(file_size), little);
        set_u32(&mut out, crate::mst::DATA_OFFSET_AT, low32_of(data_offset), little);
        patch_offsets(&mut out, &sites, &offsets, little);
        Ok(out)
    }

    /// Writes the archive at the present time. A file source takes its
    /// content from the first of `files` that has its path. Entries without
    /// an explicit time stamp get the present time.
    pub fn write(self, files: &Vec<SourceFile>) -> (archive: Result<Vec<u8>, MstError>)
        ensures
            exists|now: u32| #[trigger] self@.written(now, file_views(files@)) == outcome(archive),
    {
        self.write_at(now(), files)
    }
}

} // verus!
