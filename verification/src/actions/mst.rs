//! Operations on archives.
//!
//! Every operation takes its options and the files it may read, each with
//! its path and all its bytes, and gives what is to be printed or written.
use crate::error::MstError;
use crate::mst::builder::{
    file_views, input, input_of, range, range_of, registered, BuilderEntryView, BuilderView,
    FileView, MstBuilder, SourceFile, SourceView,
};
use crate::mst::entry::{CanonicalEntry, CanonicalSupportEntry, Entry};
use crate::mst::header::MstHeader;
use crate::mst::layout::{append_blocks, block_start, low32s, patch_offsets, region, slices_view};
use crate::mst::version::{classify, classify_platform, minor_of, with_minor};
use crate::mst::{Mst, MstVersion, MstVersionKnown, MstView};
use vstd::prelude::*;

verus! {

/// What `info` needs: the archive to describe.
#[derive(Debug)]
pub struct InfoOpts {
    pub input_path: String,
}

/// What `list` needs: the archive to list.
#[derive(Debug)]
pub struct ListOpts {
    pub input_path: String,
}

/// What `unpack` needs: the archive and the directory for its contents.
#[derive(Debug)]
pub struct UnpackOpts {
    pub input_path: String,
    pub output_dir: String,
}

/// What `convert` needs: the archive, where to write the new one, and the
/// minor version to convert to.
#[derive(Debug)]
pub struct ConvertOpts {
    pub input_path: String,
    pub output_path: Option<String>,
    pub minor: Option<u8>,
}

/// What `combine` needs: two archives and where to write the new one.
#[derive(Debug)]
pub struct CombineOpts {
    pub input1_path: String,
    pub input2_path: String,
    pub output_path: Option<String>,
}

/// What `strip` needs: the archive to strip of its content.
#[derive(Debug)]
pub struct StripOpts {
    pub input_path: String,
}

/// What `rewrite` needs: the archive to lay out anew.
#[derive(Debug)]
pub struct RewriteOpts {
    pub input_path: String,
}

/// What `info` tells of an archive: version word, header, and the oldest and
/// the newest time stamp of a live entry.
#[derive(Clone, Copy, Debug)]
pub struct MstInfo {
    pub version: MstVersion,
    pub header: MstHeader,
    pub oldest: Option<u32>,
    pub newest: Option<u32>,
}

/// What `list` tells of an archive: the counts of the header and the live
/// entries and support entries in canonical form.
#[derive(Debug)]
pub struct Listing {
    pub num_entries: u32,
    pub entries: Vec<CanonicalEntry>,
    pub num_support_entries: u32,
    pub support_entries: Vec<CanonicalSupportEntry>,
}

/// What a listing holds.
pub struct ListingView {
    pub num_entries: u32,
    pub entries: Seq<CanonicalEntry>,
    pub num_support_entries: u32,
    pub support_entries: Seq<CanonicalSupportEntry>,
}

impl View for Listing {
    type V = ListingView;

    open spec fn view(&self) -> ListingView {
        ListingView {
            num_entries: self.num_entries,
            entries: self.entries@,
            num_support_entries: self.num_support_entries,
            support_entries: self.support_entries@,
        }
    }
}

/// The least time stamp of `entries`, or none where there is no entry.
pub open spec fn oldest(entries: Seq<CanonicalEntry>) -> Option<u32>
    decreases entries.len(),
{
    if entries.len() == 0 {
        None
    } else {
        match oldest(entries.drop_last()) {
            Some(before) if before <= entries.last().timestamp => Some(before),
            _ => Some(entries.last().timestamp),
        }
    }
}

/// The greatest time stamp of `entries`, or none where there is no entry.
pub open spec fn newest(entries: Seq<CanonicalEntry>) -> Option<u32>
    decreases entries.len(),
{
    if entries.len() == 0 {
        None
    } else {
        match newest(entries.drop_last()) {
            Some(before) if before >= entries.last().timestamp => Some(before),
            _ => Some(entries.last().timestamp),
        }
    }
}

/// The oldest time stamp is that of an entry and not above any other, and
/// the newest is that of an entry and not below any other.
pub proof fn lemma_oldest_newest(entries: Seq<CanonicalEntry>)
    ensures
        entries.len() == 0 ==> oldest(entries) is None && newest(entries) is None,
        entries.len() > 0 ==> {
            &&& oldest(entries) is Some
            &&& newest(entries) is Some
            &&& exists|i: int| 0 <= i < entries.len() && entries[i].timestamp == oldest(entries)->0
            &&& exists|i: int| 0 <= i < entries.len() && entries[i].timestamp == newest(entries)->0
            &&& forall|i: int| 0 <= i < entries.len() ==> oldest(entries)->0 <= entries[i].timestamp
            &&& forall|i: int| 0 <= i < entries.len() ==> entries[i].timestamp <= newest(entries)->0
        },
    decreases entries.len(),
{
    if entries.len() > 0 {
        let front = entries.drop_last();
        lemma_oldest_newest(front);
        let n = entries.len() - 1;
        if front.len() > 0 {
            let i = choose|i: int| 0 <= i < front.len() && front[i].timestamp == oldest(front)->0;
            let j = choose|j: int| 0 <= j < front.len() && front[j].timestamp == newest(front)->0;
            assert(entries[i] == front[i] && entries[j] == front[j]);
            assert forall|k: int| 0 <= k < entries.len() implies oldest(entries)->0
                <= entries[k].timestamp && entries[k].timestamp <= newest(entries)->0 by {
                if k < n {
                    assert(entries[k] == front[k]);
                }
            }
            if oldest(entries)->0 == entries[n].timestamp {
                assert(entries[n].timestamp == oldest(entries)->0);
            } else {
                assert(entries[i].timestamp == oldest(entries)->0);
            }
            if newest(entries)->0 == entries[n].timestamp {
                assert(entries[n].timestamp == newest(entries)->0);
            } else {
                assert(entries[j].timestamp == newest(entries)->0);
            }
        } else {
            assert(entries[n].timestamp == oldest(entries)->0);
            assert(entries[n].timestamp == newest(entries)->0);
        }
    }
}

/// The archive that reading the first file of `path` gives.
pub open spec fn archive_of(files: Seq<FileView>, path: Seq<char>) -> Result<MstView, MstError> {
    match input_of(files, path) {
        Err(error) => Err(error),
        Ok(bytes) => MstView::parsed(bytes),
    }
}

/// What `info` tells of the archive at `path`.
pub open spec fn info_of(files: Seq<FileView>, path: Seq<char>) -> Result<MstInfo, MstError> {
    match archive_of(files, path) {
        Err(error) => Err(error),
        Ok(archive) => Ok(
            MstInfo {
                version: MstVersion { word: archive.body.version },
                header: archive.body.header,
                oldest: oldest(archive.body.entries.canonical().entries),
                newest: newest(archive.body.entries.canonical().entries),
            },
        ),
    }
}

/// What `list` tells of the archive at `path`.
pub open spec fn listing_of(files: Seq<FileView>, path: Seq<char>) -> Result<ListingView, MstError> {
    match archive_of(files, path) {
        Err(error) => Err(error),
        Ok(archive) => Ok(
            ListingView {
                num_entries: archive.body.header.num_entries,
                entries: archive.body.entries.canonical().entries,
                num_support_entries: archive.body.header.num_support_entries,
                support_entries: archive.body.entries.canonical().support_entries,
            },
        ),
    }
}

/// What a fallible archive holds.
pub open spec fn archive_outcome(result: Result<Mst, MstError>) -> Result<MstView, MstError> {
    match result {
        Ok(archive) => Ok(archive@),
        Err(error) => Err(error),
    }
}

/// Reads the archive in the first file of `path`.
pub fn read_archive(files: &Vec<SourceFile>, path: &String) -> (archive: Result<Mst, MstError>)
    ensures
        archive_outcome(archive) == archive_of(file_views(files@), path@),
{
    let bytes = match input(files, path) {
        Ok(bytes) => bytes,
        Err(error) => {
            return Err(error);
        },
    };
    Mst::read(bytes)
}

/// Describes the archive at `opts.input_path`: its version word, its header,
/// and the oldest and the newest time stamp of its live entries.
pub fn info_mst(opts: &InfoOpts, files: &Vec<SourceFile>) -> (info: Result<MstInfo, MstError>)
    ensures
        info == info_of(file_views(files@), opts.input_path@),
{
    let mst = match read_archive(files, &opts.input_path) {
        Ok(mst) => mst,
        Err(error) => {
            return Err(error);
        },
    };
    let entries = mst.collect_entries();
    let mut earliest: Option<u32> = None;
    let mut latest: Option<u32> = None;
    let mut i: usize = 0;
    assert(entries@.subrange(0, 0) =~= Seq::empty());
    while i < entries.len()
        invariant
            i <= entries@.len(),
            earliest == oldest(entries@.subrange(0, i as int)),
            latest == newest(entries@.subrange(0, i as int)),
        decreases entries@.len() - i,
    {
        let seconds = entries[i].timestamp();
        proof {
            let upto = entries@.subrange(0, i + 1);
            assert(upto.drop_last() =~= entries@.subrange(0, i as int));
            assert(upto.last() == entries@[i as int]);
        }
        earliest = match earliest {
            Some(before) if before <= seconds => Some(before),
            _ => Some(seconds),
        };
        latest = match latest {
            Some(before) if before >= seconds => Some(before),
            _ => Some(seconds),
        };
        i += 1;
    }
    assert(entries@.subrange(0, i as int) =~= entries@);
    Ok(
        MstInfo {
            version: *mst.body.version(),
            header: mst.body.header,
            oldest: earliest,
            newest: latest,
        },
    )
}

/// What a fallible listing holds.
pub open spec fn listing_outcome(result: Result<Listing, MstError>) -> Result<
    ListingView,
    MstError,
> {
    match result {
        Ok(listing) => Ok(listing@),
        Err(error) => Err(error),
    }
}

/// Lists the archive at `opts.input_path`: the counts of its header and its
/// live entries and support entries, in order.
pub fn list_mst(opts: &ListOpts, files: &Vec<SourceFile>) -> (listing: Result<Listing, MstError>)
    ensures
        listing_outcome(listing) == listing_of(file_views(files@), opts.input_path@),
{
    let mst = match read_archive(files, &opts.input_path) {
        Ok(mst) => mst,
        Err(error) => {
            return Err(error);
        },
    };
    Ok(
        Listing {
            num_entries: mst.body.header.num_entries,
            entries: mst.collect_entries(),
            num_support_entries: mst.body.header.num_support_entries,
            support_entries: mst.collect_support_entries(),
        },
    )
}

/// The content of each of `entries` in `bytes`: the range that its offset and
/// size name. `Io` where a range is not empty and ends behind the end of
/// `bytes`.
pub open spec fn content_ranges(bytes: Seq<u8>, entries: Seq<CanonicalEntry>) -> Result<
    Seq<Seq<u8>>,
    MstError,
> {
    if exists|i: int|
        0 <= i < entries.len() && range_of(
            bytes,
            entries[i].offset as nat,
            entries[i].size as nat,
        ) is Err {
        Err(MstError::Io)
    } else {
        Ok(
            Seq::new(
                entries.len(),
                |i: int| range_of(bytes, entries[i].offset as nat, entries[i].size as nat)->Ok_0,
            ),
        )
    }
}

/// What a fallible list of slices holds.
pub open spec fn slices_outcome(result: Result<Vec<&[u8]>, MstError>) -> Result<
    Seq<Seq<u8>>,
    MstError,
> {
    match result {
        Ok(blocks) => Ok(slices_view(blocks@)),
        Err(error) => Err(error),
    }
}

/// The content of each of `entries` in `bytes`.
pub fn take_ranges<'a>(bytes: &'a [u8], entries: &Vec<CanonicalEntry>) -> (blocks: Result<
    Vec<&'a [u8]>,
    MstError,
>)
    ensures
        slices_outcome(blocks) == content_ranges(bytes@, entries@),
{
    let mut blocks: Vec<&'a [u8]> = Vec::new();
    let mut i: usize = 0;
    while i < entries.len()
        invariant
            i <= entries@.len(),
            blocks@.len() == i,
            forall|j: int|
                0 <= j < i ==> range_of(
                    bytes@,
                    entries@[j].offset as nat,
                    entries@[j].size as nat,
                ) == Ok::<Seq<u8>, MstError>(#[trigger] blocks@[j]@),
        decreases entries@.len() - i,
    {
        match range(bytes, entries[i].offset(), entries[i].size()) {
            Ok(part) => {
                blocks.push(part);
            },
            Err(_) => {
                assert(range_of(
                    bytes@,
                    entries@[i as int].offset as nat,
                    entries@[i as int].size as nat,
                ) is Err);
                return Err(MstError::Io);
            },
        }
        i += 1;
    }
    proof {
        assert forall|j: int| 0 <= j < entries@.len() implies !(range_of(
            bytes@,
            entries@[j].offset as nat,
            entries@[j].size as nat,
        ) is Err) by {
            assert(range_of(bytes@, entries@[j].offset as nat, entries@[j].size as nat) == Ok::<
                Seq<u8>,
                MstError,
            >(blocks@[j]@));
        }
        assert(slices_view(blocks@) =~= Seq::new(
            entries@.len(),
            |k: int| range_of(bytes@, entries@[k].offset as nat, entries@[k].size as nat)->Ok_0,
        ));
    }
    Ok(blocks)
}

/// The content of one live entry, ready to be written to a file of its name.
#[derive(Debug)]
pub struct Unpacked {
    pub name: String,
    pub data: Vec<u8>,
}

/// What an unpacked entry holds.
pub struct UnpackedView {
    pub name: Seq<char>,
    pub data: Seq<u8>,
}

impl View for Unpacked {
    type V = UnpackedView;

    open spec fn view(&self) -> UnpackedView {
        UnpackedView { name: self.name@, data: self.data@ }
    }
}

/// What unpacked entries hold, in order.
pub open spec fn unpacked_views(entries: Seq<Unpacked>) -> Seq<UnpackedView> {
    Seq::new(entries.len(), |i: int| entries[i]@)
}

/// What `unpack` takes out of `bytes`: for each live entry, in order, its
/// visible name and its content.
pub open spec fn unpacked_of(bytes: Seq<u8>) -> Result<Seq<UnpackedView>, MstError> {
    match MstView::parsed(bytes) {
        Err(error) => Err(error),
        Ok(archive) => {
            let entries = archive.body.entries.canonical().entries;
            match content_ranges(bytes, entries) {
                Err(error) => Err(error),
                Ok(blocks) => Ok(
                    Seq::new(
                        entries.len(),
                        |i: int| UnpackedView { name: entries[i].filename.text(), data: blocks[i] },
                    ),
                ),
            }
        },
    }
}

/// What a fallible list of unpacked entries holds.
pub open spec fn unpacked_outcome(result: Result<Vec<Unpacked>, MstError>) -> Result<
    Seq<UnpackedView>,
    MstError,
> {
    match result {
        Ok(entries) => Ok(unpacked_views(entries@)),
        Err(error) => Err(error),
    }
}

/// Takes the content of every live entry out of the archive `bytes`.
pub fn unpack(bytes: &[u8]) -> (unpacked: Result<Vec<Unpacked>, MstError>)
    ensures
        unpacked_outcome(unpacked) == unpacked_of(bytes@),
{
    let mst = match Mst::read(bytes) {
        Ok(mst) => mst,
        Err(error) => {
            return Err(error);
        },
    };
    let entries = mst.collect_entries();
    let blocks = match take_ranges(bytes, &entries) {
        Ok(blocks) => blocks,
        Err(error) => {
            return Err(error);
        },
    };
    let mut unpacked: Vec<Unpacked> = Vec::new();
    let mut i: usize = 0;
    proof {
        let ranges = content_ranges(bytes@, entries@)->Ok_0;
        assert(slices_view(blocks@) == ranges);
        assert(slices_view(blocks@).len() == entries@.len());
        assert forall|j: int| 0 <= j < entries@.len() implies blocks@[j]@ == #[trigger] ranges[j] by {
            assert(slices_view(blocks@)[j] == blocks@[j]@);
        }
    }
    while i < entries.len()
        invariant
            i <= entries@.len(),
            blocks@.len() == entries@.len(),
            unpacked@.len() == i,
            forall|j: int|
                0 <= j < i ==> (#[trigger] unpacked@[j])@ == (UnpackedView {
                    name: entries@[j].filename.text(),
                    data: blocks@[j]@,
                }),
            forall|j: int|
                0 <= j < entries@.len() ==> blocks@[j]@ == #[trigger] content_ranges(
                    bytes@,
                    entries@,
                )->Ok_0[j],
        decreases entries@.len() - i,
    {
        unpacked.push(
            Unpacked { name: entries[i].filename(), data: vstd::slice::slice_to_vec(blocks[i]) },
        );
        i += 1;
    }
    assert(unpacked_views(unpacked@) =~= unpacked_of(bytes@)->Ok_0);
    Ok(unpacked)
}

/// Takes the content of every live entry out of the archive at
/// `opts.input_path`.
pub fn unpack_mst(opts: &UnpackOpts, files: &Vec<SourceFile>) -> (unpacked: Result<
    Vec<Unpacked>,
    MstError,
>)
    ensures
        unpacked_outcome(unpacked) == (match input_of(file_views(files@), opts.input_path@) {
            Err(error) => Err(error),
            Ok(bytes) => unpacked_of(bytes),
        }),
{
    match input(files, &opts.input_path) {
        Ok(bytes) => unpack(bytes),
        Err(error) => Err(error),
    }
}

/// What `strip` makes of `bytes`: the archive up to the end of its entry
/// table, stored anew. `Io` where the content of a live entry lies behind the
/// end of `bytes`.
pub open spec fn stripped_of(bytes: Seq<u8>) -> Result<Seq<u8>, MstError> {
    match MstView::parsed(bytes) {
        Err(error) => Err(error),
        Ok(archive) => match content_ranges(bytes, archive.body.entries.canonical().entries) {
            Err(error) => Err(error),
            Ok(_) => archive.written(),
        },
    }
}

/// Stores the archive `bytes` anew without its content.
pub fn strip(bytes: &[u8]) -> (stripped: Result<Vec<u8>, MstError>)
    ensures
        crate::mst::builder::outcome(stripped) == stripped_of(bytes@),
{
    let mst = match Mst::read(bytes) {
        Ok(mst) => mst,
        Err(error) => {
            return Err(error);
        },
    };
    let entries = mst.collect_entries();
    match take_ranges(bytes, &entries) {
        Ok(_) => {},
        Err(error) => {
            return Err(error);
        },
    }
    let mut out: Vec<u8> = Vec::new();
    match mst.write(&mut out) {
        Ok(_) => {
            assert(out@ =~= mst@.encoding());
            Ok(out)
        },
        Err(error) => Err(error),
    }
}

/// Stores the archive at `opts.input_path` anew without its content.
pub fn strip_mst(opts: &StripOpts, files: &Vec<SourceFile>) -> (stripped: Result<Vec<u8>, MstError>)
    ensures
        crate::mst::builder::outcome(stripped) == (match input_of(
            file_views(files@),
            opts.input_path@,
        ) {
            Err(error) => Err(error),
            Ok(bytes) => stripped_of(bytes),
        }),
{
    match input(files, &opts.input_path) {
        Ok(bytes) => strip(bytes),
        Err(error) => Err(error),
    }
}

/// What `rewrite` makes of `bytes`: the archive up to the end of its entry
/// table, then the content of its live entries in their order, each on a
/// 2048-byte boundary, and in the table the low 32 bits of the start of each
/// block as the content offset of its entry. The header stays as it was read.
pub open spec fn rewritten_of(bytes: Seq<u8>) -> Result<Seq<u8>, MstError> {
    match MstView::parsed(bytes) {
        Err(error) => Err(error),
        Ok(archive) => match content_ranges(bytes, archive.body.entries.canonical().entries) {
            Err(error) => Err(error),
            Ok(blocks) => match archive.written() {
                Err(error) => Err(error),
                Ok(head) => Ok(
                    archive.moved(
                        crate::mst::layout::low32_all(
                            crate::mst::layout::block_starts(blocks, head.len() as int),
                        ),
                    ).encoding() + region(blocks, head.len() as int),
                ),
            },
        },
    }
}

/// Whether the content of the archive `bytes` lies where laying it out puts
/// it: the content of every live entry is within `bytes`, the first block
/// starts on the first 2048-byte boundary behind the entry table, and every
/// other block on the first one behind the block of the entry in front.
pub open spec fn packed(bytes: Seq<u8>) -> bool {
    match MstView::parsed(bytes) {
        Err(_) => false,
        Ok(archive) => {
            let entries = archive.body.entries.canonical().entries;
            match content_ranges(bytes, entries) {
                Err(_) => false,
                Ok(blocks) => forall|i: int|
                    0 <= i < entries.len() ==> (#[trigger] entries[i]).offset == block_start(
                        blocks,
                        archive.encoding().len() as int,
                        i,
                    ),
            }
        },
    }
}

/// Laying out anew an archive that was read, whose table is exact and whose
/// content is packed, gives back the bytes up to the end of the entry table
/// and puts the content of every live entry where it was.
pub proof fn lemma_rewrite_keeps(bytes: Seq<u8>)
    requires
        MstView::exact(bytes),
        packed(bytes),
    ensures
        MstView::parsed(bytes) is Ok,
        rewritten_of(bytes) is Ok,
        rewritten_of(bytes)->Ok_0.subrange(0, MstView::parsed(bytes)->Ok_0.encoding().len() as int)
            == bytes.subrange(0, MstView::parsed(bytes)->Ok_0.encoding().len() as int),
        forall|i: int|
            0 <= i < MstView::parsed(bytes)->Ok_0.body.entries.live_count() ==> rewritten_of(
                bytes,
            )->Ok_0.subrange(
                (#[trigger] MstView::parsed(bytes)->Ok_0.body.entries.canonical().entries[i]).offset as int,
                MstView::parsed(bytes)->Ok_0.body.entries.canonical().entries[i].offset
                    + content_ranges(
                    bytes,
                    MstView::parsed(bytes)->Ok_0.body.entries.canonical().entries,
                )->Ok_0[i].len(),
            ) == content_ranges(
                bytes,
                MstView::parsed(bytes)->Ok_0.body.entries.canonical().entries,
            )->Ok_0[i],
{
    let archive = MstView::parsed(bytes)->Ok_0;
    let entries = archive.body.entries.canonical().entries;
    let blocks = content_ranges(bytes, entries)->Ok_0;
    let head = archive.encoding().len() as int;
    let starts = crate::mst::layout::block_starts(blocks, head);
    let values = crate::mst::layout::low32_all(starts);
    MstView::lemma_read_write(bytes);
    assert forall|i: int| 0 <= i < values.len() implies values[i] == (#[trigger] entries[i]).offset by {
        assert(entries[i].offset == block_start(blocks, head, i));
        crate::mst::layout::lemma_low32(block_start(blocks, head, i));
        assert(starts[i] == block_start(blocks, head, i));
    }
    archive.lemma_moved_same(values);
    let out = rewritten_of(bytes)->Ok_0;
    assert(out == archive.encoding() + region(blocks, head));
    assert(out.subrange(0, head) =~= archive.encoding());
    crate::mst::layout::lemma_region(blocks, head, archive.encoding());
    assert forall|i: int| 0 <= i < entries.len() implies out.subrange(
        (#[trigger] entries[i]).offset as int,
        entries[i].offset + blocks[i].len(),
    ) == blocks[i] by {
        assert(entries[i].offset == block_start(blocks, head, i));
    }
}

/// Lays the archive `bytes` out anew.
pub fn rewrite(bytes: &[u8]) -> (rewritten: Result<Vec<u8>, MstError>)
    ensures
        crate::mst::builder::outcome(rewritten) == rewritten_of(bytes@),
{
    let mst = match Mst::read(bytes) {
        Ok(mst) => mst,
        Err(error) => {
            return Err(error);
        },
    };
    let entries = mst.collect_entries();
    let blocks = match take_ranges(bytes, &entries) {
        Ok(blocks) => blocks,
        Err(error) => {
            return Err(error);
        },
    };
    let little = mst.identifier.is_little();
    let mut out: Vec<u8> = Vec::new();
    let sites = match mst.write(&mut out) {
        Ok(sites) => sites,
        Err(error) => {
            return Err(error);
        },
    };
    let ghost contents = slices_view(blocks@);
    let ghost head = out@.len() as int;
    proof {
        assert(out@ =~= mst@.encoding());
        mst@.lemma_sites_within(sites@);
    }
    let offsets = append_blocks(&mut out, &blocks);
    proof {
        assert(low32s(offsets@) =~= crate::mst::layout::low32_all(
            crate::mst::layout::block_starts(contents, head),
        ));
        mst@.lemma_patched(region(contents, head), sites@, offsets@, sites@.len());
    }
    patch_offsets(&mut out, &sites, &offsets, little);
    Ok(out)
}

/// Lays the archive at `opts.input_path` out anew.
pub fn rewrite_mst(opts: &RewriteOpts, files: &Vec<SourceFile>) -> (rewritten: Result<
    Vec<u8>,
    MstError,
>)
    ensures
        crate::mst::builder::outcome(rewritten) == (match input_of(
            file_views(files@),
            opts.input_path@,
        ) {
            Err(error) => Err(error),
            Ok(bytes) => rewritten_of(bytes),
        }),
{
    match input(files, &opts.input_path) {
        Ok(bytes) => rewrite(bytes),
        Err(error) => Err(error),
    }
}

/// The source that refers to the content of `entry` in the file `file`, with
/// the time stamp of the entry.
pub open spec fn reference_to(entry: CanonicalEntry, file: Seq<char>) -> SourceView {
    SourceView::File {
        path: file,
        offset: entry.offset as nat,
        size: entry.size as nat,
        timestamp: Some(entry.timestamp),
    }
}

/// `base` after each of `entries` was registered, in order, under its
/// visible name as a reference to its content in the file `file`.
pub open spec fn referenced(base: Seq<BuilderEntryView>, entries: Seq<CanonicalEntry>, file: Seq<char>) -> Seq<
    BuilderEntryView,
>
    decreases entries.len(),
{
    if entries.len() == 0 {
        base
    } else {
        registered(
            referenced(base, entries.drop_last(), file),
            entries.last().filename.text(),
            reference_to(entries.last(), file),
        )
    }
}

/// Registers each of `entries`, in order, under its visible name as a
/// reference to its content in the file `file`.
pub fn add_references(builder: &mut MstBuilder, entries: &Vec<CanonicalEntry>, file: &String)
    ensures
        final(builder)@ == (BuilderView {
            entries: referenced(old(builder)@.entries, entries@, file@),
            ..old(builder)@
        }),
        old(builder).well_formed() ==> final(builder).well_formed(),
{
    let mut i: usize = 0;
    assert(entries@.subrange(0, 0) =~= Seq::empty());
    while i < entries.len()
        invariant
            i <= entries@.len(),
            builder@ == (BuilderView {
                entries: referenced(old(builder)@.entries, entries@.subrange(0, i as int), file@),
                ..old(builder)@
            }),
            old(builder).well_formed() ==> builder.well_formed(),
        decreases entries@.len() - i,
    {
        let entry = &entries[i];
        proof {
            let upto = entries@.subrange(0, i + 1);
            assert(upto.drop_last() =~= entries@.subrange(0, i as int));
            assert(upto.last() == entries@[i as int]);
        }
        builder.add_entry_file(
            entry.filename(),
            file.clone(),
            entry.offset(),
            entry.size(),
            Some(entry.timestamp()),
        );
        i += 1;
    }
    assert(entries@.subrange(0, i as int) =~= entries@);
}

/// What `convert` makes of the archive at `path`: a new archive of the
/// revision that the version word names once its minor version is `minor`,
/// or of the archive's own revision where no minor version is given, with
/// every live entry and its content. Every entry keeps its time stamp, so the
/// time of writing does not show.
pub open spec fn converted_of(files: Seq<FileView>, path: Seq<char>, minor: Option<u8>) -> Result<
    Seq<u8>,
    MstError,
> {
    match archive_of(files, path) {
        Err(error) => Err(error),
        Ok(archive) => match classify_platform(archive.body.version) {
            Err(error) => Err(error),
            Ok(platform) => {
                let word = with_minor(
                    archive.body.version,
                    match minor {
                        Some(minor) => minor,
                        None => minor_of(archive.body.version),
                    },
                );
                match classify(word) {
                    Err(error) => Err(error),
                    Ok(version) => (BuilderView {
                        platform,
                        version,
                        compilers: archive.body.header.compilers,
                        entries: referenced(
                            Seq::empty(),
                            archive.body.entries.canonical().entries,
                            path,
                        ),
                    }).written(0, files),
                }
            },
        },
    }
}

/// Writes the archive at `opts.input_path` anew in the revision of the minor
/// version `opts.minor`.
pub fn convert_mst(opts: &ConvertOpts, files: &Vec<SourceFile>) -> (converted: Result<
    Vec<u8>,
    MstError,
>)
    ensures
        crate::mst::builder::outcome(converted) == converted_of(
            file_views(files@),
            opts.input_path@,
            opts.minor,
        ),
{
    let mst = match read_archive(files, &opts.input_path) {
        Ok(mst) => mst,
        Err(error) => {
            return Err(error);
        },
    };
    proof {
        let bytes = input_of(file_views(files@), opts.input_path@)->Ok_0;
        MstView::lemma_read_write(bytes);
    }
    let mut mst_builder = match MstBuilder::from_mst_empty(&mst) {
        Ok(builder) => builder,
        Err(error) => {
            return Err(error);
        },
    };
    let mut new_mst_version = *mst.body.version();
    let minor = match opts.minor {
        Some(minor) => minor,
        None => new_mst_version.minor(),
    };
    new_mst_version.set_minor(minor);
    let new_version = match MstVersionKnown::try_from(&new_mst_version) {
        Ok(version) => version,
        Err(error) => {
            return Err(error);
        },
    };
    mst_builder.set_version(&new_version);
    let entries = mst.collect_entries();
    add_references(&mut mst_builder, &entries, &opts.input_path);
    mst_builder.write_at(0, files)
}

/// What `combine` makes of the archives at `first` and `second`: a new
/// archive of the revision and platform of the first one, with the live
/// entries of the first and then those of the second, each with its content.
/// Of two entries with one name the later one stays, in the place of the
/// earlier one.
pub open spec fn combined_of(files: Seq<FileView>, first: Seq<char>, second: Seq<char>) -> Result<
    Seq<u8>,
    MstError,
> {
    match archive_of(files, first) {
        Err(error) => Err(error),
        Ok(one) => match archive_of(files, second) {
            Err(error) => Err(error),
            Ok(two) => match classify_platform(one.body.version) {
                Err(error) => Err(error),
                Ok(platform) => match classify(one.body.version) {
                    Err(error) => Err(error),
                    Ok(version) => (BuilderView {
                        platform,
                        version,
                        compilers: one.body.header.compilers,
                        entries: referenced(
                            referenced(
                                Seq::empty(),
                                one.body.entries.canonical().entries,
                                first,
                            ),
                            two.body.entries.canonical().entries,
                            second,
                        ),
                    }).written(0, files),
                },
            },
        },
    }
}

/// Writes the entries of the archives at `opts.input1_path` and
/// `opts.input2_path` into one new archive.
pub fn combine_mst(opts: &CombineOpts, files: &Vec<SourceFile>) -> (combined: Result<
    Vec<u8>,
    MstError,
>)
    ensures
        crate::mst::builder::outcome(combined) == combined_of(
            file_views(files@),
            opts.input1_path@,
            opts.input2_path@,
        ),
{
    let mst1 = match read_archive(files, &opts.input1_path) {
        Ok(mst) => mst,
        Err(error) => {
            return Err(error);
        },
    };
    let mst2 = match read_archive(files, &opts.input2_path) {
        Ok(mst) => mst,
        Err(error) => {
            return Err(error);
        },
    };
    let mut mst_builder = match MstBuilder::from_mst_empty(&mst1) {
        Ok(builder) => builder,
        Err(error) => {
            return Err(error);
        },
    };
    let entries1 = mst1.collect_entries();
    add_references(&mut mst_builder, &entries1, &opts.input1_path);
    let entries2 = mst2.collect_entries();
    add_references(&mut mst_builder, &entries2, &opts.input2_path);
    mst_builder.write_at(0, files)
}

/// The extension that the default path of a written archive gets in place
/// of the extension of the input path.
#[derive(Clone, Copy, Debug, PartialEq, Eq, Structural)]
pub enum Extension {
    /// `convert.mst`
    Convert,
    /// `combined.mst`
    Combined,
    /// `stripped.mst`
    Stripped,
    /// `rewrite.mst`
    Rewrite,
}

impl Extension {
    /// The extension as text.
    pub fn text(&self) -> (text: &'static str)
        ensures
            text@ == (match *self {
                Extension::Convert => "convert.mst"@,
                Extension::Combined => "combined.mst"@,
                Extension::Stripped => "stripped.mst"@,
                Extension::Rewrite => "rewrite.mst"@,
            }),
    {
        match self {
            Extension::Convert => "convert.mst",
            Extension::Combined => "combined.mst",
            Extension::Stripped => "stripped.mst",
            Extension::Rewrite => "rewrite.mst",
        }
    }
}

/// Where a written archive goes.
#[derive(Debug)]
pub enum Target {
    /// To the given path.
    Path(String),
    /// To the path of the input with another extension.
    Beside { input: String, extension: Extension },
}

/// What a target holds.
pub enum TargetView {
    Path(Seq<char>),
    Beside { input: Seq<char>, extension: Extension },
}

impl View for Target {
    type V = TargetView;

    open spec fn view(&self) -> TargetView {
        match *self {
            Target::Path(path) => TargetView::Path(path@),
            Target::Beside { input, extension } => TargetView::Beside { input: input@, extension },
        }
    }
}

/// The target of an operation that writes an archive: the output path where
/// one is given, and else the input path with the extension of the operation.
pub open spec fn target_of(output: Option<String>, input: Seq<char>, extension: Extension) -> TargetView {
    match output {
        Some(path) => TargetView::Path(path@),
        None => TargetView::Beside { input, extension },
    }
}

/// The target of an operation that writes an archive.
pub fn target(output: Option<String>, input: String, extension: Extension) -> (target: Target)
    ensures
        target@ == target_of(output, input@, extension),
{
    match output {
        Some(path) => Target::Path(path),
        None => Target::Beside { input, extension },
    }
}

/// An operation on an archive.
#[derive(Debug)]
pub enum Command {
    /// Describe the header of an archive.
    Info(InfoOpts),
    /// List the entries of an archive.
    List(ListOpts),
    /// Take the content of every entry out of an archive.
    Unpack(UnpackOpts),
    /// Write an archive anew in another revision.
    Convert(ConvertOpts),
    /// Write the entries of two archives into one.
    Combine(CombineOpts),
    /// Write an archive anew without its content.
    Strip(StripOpts),
    /// Lay an archive out anew.
    Rewrite(RewriteOpts),
}

/// What an operation gives: what to print, or what to write and where.
#[derive(Debug)]
pub enum Outcome {
    Info(MstInfo),
    List(Listing),
    Unpack { output_dir: String, entries: Vec<Unpacked> },
    Write { target: Target, bytes: Vec<u8> },
}

/// What an outcome holds.
pub enum OutcomeView {
    Info(MstInfo),
    List(ListingView),
    Unpack { output_dir: Seq<char>, entries: Seq<UnpackedView> },
    Write { target: TargetView, bytes: Seq<u8> },
}

impl View for Outcome {
    type V = OutcomeView;

    open spec fn view(&self) -> OutcomeView {
        match *self {
            Outcome::Info(info) => OutcomeView::Info(info),
            Outcome::List(listing) => OutcomeView::List(listing@),
            Outcome::Unpack { output_dir, entries } => OutcomeView::Unpack {
                output_dir: output_dir@,
                entries: unpacked_views(entries@),
            },
            Outcome::Write { target, bytes } => OutcomeView::Write {
                target: target@,
                bytes: bytes@,
            },
        }
    }
}

/// What a fallible outcome holds.
pub open spec fn outcome_view(result: Result<Outcome, MstError>) -> Result<OutcomeView, MstError> {
    match result {
        Ok(outcome) => Ok(outcome@),
        Err(error) => Err(error),
    }
}

/// The archive that is to be written to `target`, or the error.
pub open spec fn to_write(bytes: Result<Seq<u8>, MstError>, target: TargetView) -> Result<
    OutcomeView,
    MstError,
> {
    match bytes {
        Ok(bytes) => Ok(OutcomeView::Write { target, bytes }),
        Err(error) => Err(error),
    }
}

impl Command {
    /// The paths of the files that the operation reads, in the order of its
    /// options.
    pub open spec fn input_paths(self) -> Seq<Seq<char>> {
        match self {
            Command::Info(opts) => seq![opts.input_path@],
            Command::List(opts) => seq![opts.input_path@],
            Command::Unpack(opts) => seq![opts.input_path@],
            Command::Convert(opts) => seq![opts.input_path@],
            Command::Combine(opts) => seq![opts.input1_path@, opts.input2_path@],
            Command::Strip(opts) => seq![opts.input_path@],
            Command::Rewrite(opts) => seq![opts.input_path@],
        }
    }

    /// What the operation gives with the files `files`.
    pub open spec fn processed(self, files: Seq<FileView>) -> Result<OutcomeView, MstError> {
        match self {
            Command::Info(opts) => match info_of(files, opts.input_path@) {
                Ok(info) => Ok(OutcomeView::Info(info)),
                Err(error) => Err(error),
            },
            Command::List(opts) => match listing_of(files, opts.input_path@) {
                Ok(listing) => Ok(OutcomeView::List(listing)),
                Err(error) => Err(error),
            },
            Command::Unpack(opts) => match input_of(files, opts.input_path@) {
                Err(error) => Err(error),
                Ok(bytes) => match unpacked_of(bytes) {
                    Ok(entries) => Ok(
                        OutcomeView::Unpack { output_dir: opts.output_dir@, entries },
                    ),
                    Err(error) => Err(error),
                },
            },
            Command::Convert(opts) => to_write(
                converted_of(files, opts.input_path@, opts.minor),
                target_of(opts.output_path, opts.input_path@, Extension::Convert),
            ),
            Command::Combine(opts) => to_write(
                combined_of(files, opts.input1_path@, opts.input2_path@),
                target_of(opts.output_path, opts.input1_path@, Extension::Combined),
            ),
            Command::Strip(opts) => to_write(
                match input_of(files, opts.input_path@) {
                    Err(error) => Err(error),
                    Ok(bytes) => stripped_of(bytes),
                },
                TargetView::Beside { input: opts.input_path@, extension: Extension::Stripped },
            ),
            Command::Rewrite(opts) => to_write(
                match input_of(files, opts.input_path@) {
                    Err(error) => Err(error),
                    Ok(bytes) => rewritten_of(bytes),
                },
                TargetView::Beside { input: opts.input_path@, extension: Extension::Rewrite },
            ),
        }
    }

    /// The paths of the files that the operation reads, in the order of its
    /// options.
    pub fn inputs(&self) -> (paths: Vec<String>)
        ensures
            paths@.len() == self.input_paths().len(),
            forall|i: int| 0 <= i < paths@.len() ==> paths@[i]@ == self.input_paths()[i],
    {
        let mut paths: Vec<String> = Vec::new();
        match self {
            Command::Info(opts) => {
                paths.push(opts.input_path.clone());
            },
            Command::List(opts) => {
                paths.push(opts.input_path.clone());
            },
            Command::Unpack(opts) => {
                paths.push(opts.input_path.clone());
            },
            Command::Convert(opts) => {
                paths.push(opts.input_path.clone());
            },
            Command::Combine(opts) => {
                paths.push(opts.input1_path.clone());
                paths.push(opts.input2_path.clone());
            },
            Command::Strip(opts) => {
                paths.push(opts.input_path.clone());
            },
            Command::Rewrite(opts) => {
                paths.push(opts.input_path.clone());
            },
        }
        paths
    }

    /// Carries the operation out on the files `files`, which hold the bytes
    /// of the files at `inputs()`, and gives what is to be printed or
    /// written. A file that is missing from `files` counts as unreadable.
    pub fn process(self, files: &Vec<SourceFile>) -> (outcome: Result<Outcome, MstError>)
        ensures
            outcome_view(outcome) == self.processed(file_views(files@)),
    {
        match self {
            Command::Info(opts) => match info_mst(&opts, files) {
                Ok(info) => Ok(Outcome::Info(info)),
                Err(error) => Err(error),
            },
            Command::List(opts) => match list_mst(&opts, files) {
                Ok(listing) => Ok(Outcome::List(listing)),
                Err(error) => Err(error),
            },
            Command::Unpack(opts) => match unpack_mst(&opts, files) {
                Ok(entries) => Ok(Outcome::Unpack { output_dir: opts.output_dir, entries }),
                Err(error) => Err(error),
            },
            Command::Convert(opts) => {
                let bytes = convert_mst(&opts, files);
                written_to(bytes, target(opts.output_path, opts.input_path, Extension::Convert))
            },
            Command::Combine(opts) => {
                let bytes = combine_mst(&opts, files);
                written_to(bytes, target(opts.output_path, opts.input1_path, Extension::Combined))
            },
            Command::Strip(opts) => {
                let bytes = strip_mst(&opts, files);
                written_to(bytes, target(None, opts.input_path, Extension::Stripped))
            },
            Command::Rewrite(opts) => {
                let bytes = rewrite_mst(&opts, files);
                written_to(bytes, target(None, opts.input_path, Extension::Rewrite))
            },
        }
    }
}

/// The archive `bytes` as what is to be written to `target`, or the error.
fn written_to(bytes: Result<Vec<u8>, MstError>, target: Target) -> (outcome: Result<
    Outcome,
    MstError,
>)
    ensures
        outcome_view(outcome) == to_write(crate::mst::builder::outcome(bytes), target@),
{
    match bytes {
        Ok(bytes) => Ok(Outcome::Write { target, bytes }),
        Err(error) => Err(error),
    }
}

} // verus!
