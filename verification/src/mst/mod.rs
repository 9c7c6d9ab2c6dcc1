//! The archive model: byte-order marker, version word, header and entry table.
//!
//! An archive starts with four bytes of magic, which select the byte order of
//! all that follows but the version word. The version word comes next, always
//! least significant byte first, then the header of 25 words and the entry
//! table of the revision that the version word names.
pub mod builder;
pub mod entries;
pub mod entry;
pub mod header;
pub mod layout;
pub mod version;

pub use version::{MstPlatformKnown, MstVersion, MstVersionKnown};

use crate::codec::{
    array_of, get_u32, lemma_array_held, lemma_array_of, lemma_splice_back, lemma_splice_front, put_bytes, put_u32,
    splice, u32_bytes, u32_of,
};
use crate::error::MstError;
use crate::record::{encode_all, Record};
use layout::{low32s, patched};
use entries::{Entries, EntriesView};
use entry::{CanonicalEntry, CanonicalSupportEntry};
use header::MstHeader;
use vstd::prelude::*;
use version::{classify, minor_for, with_minor};

verus! {

/// The number of bytes in front of the entry table: magic, version word and header.
pub const HEADER_LEN: usize = 108;

/// Where the file size stands in an archive.
pub const FILE_SIZE_AT: usize = 8;

/// Where the start of the content region stands in an archive.
pub const DATA_OFFSET_AT: usize = 28;

/// The magic of an archive whose values are stored least significant byte first.
pub open spec fn magic_little() -> Seq<u8> {
    seq![0x46u8, 0x41u8, 0x4eu8, 0x47u8]
}

/// The magic of an archive whose values are stored most significant byte first.
pub open spec fn magic_big() -> Seq<u8> {
    seq![0x47u8, 0x4eu8, 0x41u8, 0x46u8]
}

/// The byte-order marker at the start of an archive.
#[derive(Clone, Copy, Debug)]
pub enum MstIdentifier {
    /// The magic `FANG`: least significant byte first.
    FangLittleEndian,
    /// The magic `GNAF`: most significant byte first.
    FangBigEndian,
    /// Any other four bytes; such an archive is read least significant byte first.
    Unknown([u8; 4]),
}

impl MstIdentifier {
    /// The four bytes that store the marker.
    pub open spec fn magic(self) -> Seq<u8> {
        match self {
            MstIdentifier::FangLittleEndian => magic_little(),
            MstIdentifier::FangBigEndian => magic_big(),
            MstIdentifier::Unknown(bytes) => bytes@,
        }
    }

    /// The marker that four bytes store.
    pub open spec fn identified(bytes: Seq<u8>) -> Self {
        if bytes == magic_little() {
            MstIdentifier::FangLittleEndian
        } else if bytes == magic_big() {
            MstIdentifier::FangBigEndian
        } else {
            MstIdentifier::Unknown(array_of(bytes))
        }
    }

    /// Whether values are stored least significant byte first.
    pub open spec fn little(self) -> bool {
        !(self is FangBigEndian)
    }

    /// Whether the marker is the one that reading its magic gives: an
    /// `Unknown` does not hold one of the two known magics.
    pub open spec fn proper(self) -> bool {
        match self {
            MstIdentifier::Unknown(bytes) => bytes@ != magic_little() && bytes@ != magic_big(),
            _ => true,
        }
    }

    /// Reading a marker's magic gives the marker back where it is proper, and
    /// storing the marker that was read gives the four bytes back.
    pub proof fn lemma_magic(self, bytes: Seq<u8>)
        ensures
            self.magic().len() == 4,
            self.proper() ==> Self::identified(self.magic()) == self,
            bytes.len() == 4 ==> Self::identified(bytes).magic() == bytes && Self::identified(
                bytes,
            ).proper(),
    {
        assert(magic_little()[0] != magic_big()[0]);
        if let MstIdentifier::Unknown(held) = self {
            lemma_array_held::<u8, 4>(held);
        }
        if bytes.len() == 4 {
            lemma_array_of::<u8, 4>(bytes);
        }
    }

    /// The marker of the archives of `platform`: most significant byte first
    /// for the GameCube, least significant byte first for the others.
    pub fn from_known(platform: MstPlatformKnown) -> (identifier: Self)
        ensures
            identifier == (if platform == MstPlatformKnown::GameCube {
                MstIdentifier::FangBigEndian
            } else {
                MstIdentifier::FangLittleEndian
            }),
    {
        match platform {
            MstPlatformKnown::Xbox => MstIdentifier::FangLittleEndian,
            MstPlatformKnown::PC => MstIdentifier::FangLittleEndian,
            MstPlatformKnown::GameCube => MstIdentifier::FangBigEndian,
            MstPlatformKnown::PlayStation2 => MstIdentifier::FangLittleEndian,
        }
    }

    /// Whether values are stored least significant byte first. That holds of
    /// every marker but `FangBigEndian`.
    pub fn is_little(&self) -> (little: bool)
        ensures
            little == self.little(),
    {
        match self {
            MstIdentifier::FangLittleEndian => true,
            MstIdentifier::FangBigEndian => false,
            MstIdentifier::Unknown(_) => true,
        }
    }

    /// Appends the magic to `out`.
    pub fn put(&self, out: &mut Vec<u8>)
        ensures
            final(out)@ == old(out)@ + self.magic(),
    {
        match self {
            MstIdentifier::FangLittleEndian => {
                out.push(0x46u8);
                out.push(0x41u8);
                out.push(0x4eu8);
                out.push(0x47u8);
            },
            MstIdentifier::FangBigEndian => {
                out.push(0x47u8);
                out.push(0x4eu8);
                out.push(0x41u8);
                out.push(0x46u8);
            },
            MstIdentifier::Unknown(bytes) => {
                put_bytes(out, bytes.as_slice());
            },
        }
        assert(out@ =~= old(out)@ + self.magic());
    }

    /// Reads the marker that starts at `pos`.
    pub fn get(data: &[u8], pos: usize) -> (identifier: Self)
        requires
            pos + 4 <= data@.len(),
        ensures
            identifier == Self::identified(data@.subrange(pos as int, pos + 4)),
    {
        let len: usize = data.len();
        let b0: u8 = data[pos];
        let b1: u8 = data[pos + 1];
        let b2: u8 = data[pos + 2];
        let b3: u8 = data[pos + 3];
        let ghost bytes = data@.subrange(pos as int, pos + 4);
        if b0 == 0x46 && b1 == 0x41 && b2 == 0x4e && b3 == 0x47 {
            assert(bytes =~= magic_little());
            MstIdentifier::FangLittleEndian
        } else if b0 == 0x47 && b1 == 0x4e && b2 == 0x41 && b3 == 0x46 {
            assert(bytes =~= magic_big());
            assert(magic_little()[0] != magic_big()[0]);
            MstIdentifier::FangBigEndian
        } else {
            let held = [b0, b1, b2, b3];
            proof {
                assert(held@ =~= bytes);
                lemma_array_held::<u8, 4>(held);
                assert(bytes[0] == b0 && bytes[1] == b1 && bytes[2] == b2 && bytes[3] == b3);
            }
            MstIdentifier::Unknown(held)
        }
    }
}

/// All of an archive behind the byte-order marker.
#[derive(Debug)]
pub struct MstBody {
    pub version: MstVersion,
    pub header: MstHeader,
    pub entries: Entries,
}

/// What the body of an archive holds.
pub struct MstBodyView {
    pub version: u32,
    pub header: MstHeader,
    pub entries: EntriesView,
}

/// An archive without its content: marker, version word, header and entry table.
#[derive(Debug)]
pub struct Mst {
    pub identifier: MstIdentifier,
    pub body: MstBody,
}

/// What an archive holds.
pub struct MstView {
    pub identifier: MstIdentifier,
    pub body: MstBodyView,
}

impl View for MstBody {
    type V = MstBodyView;

    open spec fn view(&self) -> MstBodyView {
        MstBodyView { version: self.version.word, header: self.header, entries: self.entries@ }
    }
}

impl View for Mst {
    type V = MstView;

    open spec fn view(&self) -> MstView {
        MstView { identifier: self.identifier, body: self.body@ }
    }
}

impl MstBodyView {
    /// The body in revision `new_version`. Where the version word names that
    /// revision already, the body stays as it is. Else the minor version of
    /// the word becomes that of `new_version` and the table is converted.
    pub open spec fn converted(self, new_version: MstVersionKnown) -> Self {
        if classify(self.version) == Ok::<MstVersionKnown, MstError>(new_version) {
            self
        } else {
            MstBodyView {
                version: with_minor(self.version, minor_for(new_version)),
                header: self.header,
                entries: self.entries.converted(new_version),
            }
        }
    }

    /// Whether the version word names the revision of the table.
    pub open spec fn consistent(self) -> bool {
        classify(self.version) == Ok::<MstVersionKnown, MstError>(self.entries.version())
    }

    /// Whether converting to `to` and back loses nothing of the table. That
    /// holds of a conversion to the table's own revision. Else the table has
    /// to survive a passage through `to`, and, unless the two revisions are
    /// those of version 1.8.0, one through its own revision: a name field of
    /// 16 bytes that is full to the last byte does not come back.
    pub open spec fn returns_intact(self, to: MstVersionKnown) -> bool {
        let from = self.entries.version();
        let table = self.entries.canonical();
        to == from || (table.survives(to) && (minor_for(to) == minor_for(from) || table.survives(
            from,
        )))
    }

    /// Converting a consistent body to another revision and back restores
    /// the version word and the header. The canonical entries come back as
    /// they were exactly when `returns_intact` holds; a name that was cut to
    /// 15 bytes on the way stays cut.
    pub proof fn lemma_convert_back(self, to: MstVersionKnown)
        requires
            self.consistent(),
        ensures
            self.converted(to).converted(self.entries.version()).version == self.version,
            self.converted(to).converted(self.entries.version()).header == self.header,
            self.converted(to).converted(self.entries.version()).entries.canonical()
                == self.entries.canonical() <==> self.returns_intact(to),
    {
        let from = self.entries.version();
        let table = self.entries.canonical();
        let there = self.converted(to);
        let back = there.converted(from);
        version::lemma_classify_with_minor(self.version, to);
        self.entries.lemma_canonical_converted(to);
        if to != from {
            there.entries.lemma_canonical_converted(from);
            table.lemma_survives(to);
            table.lemma_survives(from);
            table.lemma_survives_both(to, from);
            if minor_for(to) == minor_for(from) {
                assert(classify(there.version) == Ok::<MstVersionKnown, MstError>(from));
                assert(back == there);
            } else {
                assert(classify(there.version) != Ok::<MstVersionKnown, MstError>(from));
            }
        }
    }
}

impl MstView {
    /// Whether values are stored least significant byte first.
    pub open spec fn little(self) -> bool {
        self.identifier.little()
    }

    /// The bytes of the archive up to the end of the entry table: the magic,
    /// the version word least significant byte first, and header and table in
    /// the byte order of the archive.
    pub open spec fn encoding(self) -> Seq<u8> {
        self.identifier.magic() + u32_bytes(self.body.version, true) + self.body.header.encoding(
            self.little(),
        ) + self.body.entries.encoding(self.little())
    }

    /// What writing the archive gives: its bytes where the version word names
    /// the revision of the table, `UnknownVersion` where it names no known
    /// revision, and `LayoutMismatch` where it names another one.
    pub open spec fn written(self) -> Result<Seq<u8>, MstError> {
        match classify(self.body.version) {
            Err(_) => Err(MstError::UnknownVersion),
            Ok(version) => if version == self.body.entries.version() {
                Ok(self.encoding())
            } else {
                Err(MstError::LayoutMismatch)
            },
        }
    }

    /// What reading `bytes` gives. The steps are: marker, version word,
    /// classification of the version, header, table. The first step that
    /// fails decides: `Io` where `bytes` ends too early, `UnknownVersion`
    /// where the version word names no known revision.
    pub open spec fn parsed(bytes: Seq<u8>) -> Result<MstView, MstError> {
        if bytes.len() < 8 {
            Err(MstError::Io)
        } else {
            let identifier = MstIdentifier::identified(bytes.subrange(0, 4));
            let little = identifier.little();
            let word = u32_of(bytes.subrange(4, 8), true);
            match classify(word) {
                Err(_) => Err(MstError::UnknownVersion),
                Ok(version) => if bytes.len() < 108 {
                    Err(MstError::Io)
                } else {
                    let header = MstHeader::decoding(bytes.subrange(8, 108), little);
                    if bytes.len() < 108 + EntriesView::stored_len(version, header) {
                        Err(MstError::Io)
                    } else {
                        Ok(
                            MstView {
                                identifier,
                                body: MstBodyView {
                                    version: word,
                                    header,
                                    entries: EntriesView::decoding(
                                        version,
                                        bytes.subrange(108, bytes.len() as int),
                                        header,
                                        little,
                                    ),
                                },
                            },
                        )
                    }
                },
            }
        }
    }
}

impl MstView {
    /// The archive with the content offsets of its first `upto` live entries
    /// replaced by those of `offsets`, in order.
    pub open spec fn moved_upto(self, offsets: Seq<u32>, upto: int) -> Self {
        MstView {
            body: MstBodyView {
                entries: self.body.entries.moved_upto(offsets, upto),
                ..self.body
            },
            ..self
        }
    }

    /// The archive with the content offsets of its live entries replaced by
    /// `offsets`, in order.
    pub open spec fn moved(self, offsets: Seq<u32>) -> Self {
        self.moved_upto(offsets, self.body.entries.live_count() as int)
    }

    /// The archive with word `k` of its header replaced by `value`.
    pub open spec fn with_word(self, k: int, value: u32) -> Self {
        MstView {
            body: MstBodyView {
                header: MstHeader::of_words(self.body.header.words().update(k, value)),
                ..self.body
            },
            ..self
        }
    }

    /// The archive with another file size and another start of the content
    /// region in its header.
    pub open spec fn sized(self, bytes_in_file: u32, data_offset: u32) -> Self {
        MstView {
            body: MstBodyView {
                header: MstHeader { bytes_in_file, data_offset, ..self.body.header },
                ..self.body
            },
            ..self
        }
    }

    /// The stored archive is 108 bytes of marker, version word and header,
    /// then the table.
    pub proof fn lemma_encoding_parts(self)
        ensures
            self.encoding() == self.identifier.magic() + u32_bytes(self.body.version, true)
                + self.body.header.encoding(self.little()) + self.body.entries.encoding(
                self.little(),
            ),
            (self.identifier.magic() + u32_bytes(self.body.version, true)
                + self.body.header.encoding(self.little())).len() == 108,
            self.encoding().len() == 108 + self.body.entries.encoding(self.little()).len(),
    {
        self.identifier.lemma_magic(Seq::empty());
        self.body.header.lemma_width(self.little());
    }

    /// Overwriting the four bytes of header word `k` gives the stored archive
    /// with that word replaced; bytes behind the table stay.
    pub proof fn lemma_word_patch(self, tail: Seq<u8>, k: int, value: u32)
        requires
            0 <= k < 25,
        ensures
            splice(self.encoding() + tail, 8 + 4 * k, u32_bytes(value, self.little()))
                == self.with_word(k, value).encoding() + tail,
            k == 0 ==> self.with_word(k, value) == self.sized(value, self.body.header.data_offset),
            k == 5 ==> self.with_word(k, value) == self.sized(self.body.header.bytes_in_file, value),
    {
        let little = self.little();
        let words = self.body.header.words();
        let front = self.identifier.magic() + u32_bytes(self.body.version, true);
        let table = self.body.entries.encoding(little);
        let piece = u32_bytes(value, little);
        self.lemma_encoding_parts();
        self.body.header.lemma_words(words.update(k, value));
        crate::record::lemma_encode_all_update::<u32>(words, k, value, little);
        crate::record::lemma_encode_all_len::<u32>(words, little);
        let header = encode_all(words, little);
        let changed = self.with_word(k, value);
        assert(changed.body.header.words() == words.update(k, value));
        lemma_splice_back(front, header, 4 * k, piece);
        lemma_splice_front(front + header, table + tail, 8 + 4 * k, piece);
        assert(self.encoding() + tail =~= (front + header) + (table + tail));
        assert(changed.encoding() + tail =~= (front + splice(header, 4 * k, piece)) + (table
            + tail));
        lemma_array_held::<u32, 9>(self.body.header.reserved);
        if k == 0 || k == 5 {
            assert(words.update(k, value).subrange(6, 16) =~= words.subrange(6, 16));
            assert(words.update(k, value).subrange(16, 25) =~= words.subrange(16, 25));
            assert(words.subrange(16, 25) =~= self.body.header.reserved@);
            assert(words.subrange(6, 16) =~= self.body.header.compilers.words());
        }
    }

    /// Other content offsets leave the length of the stored archive as it is.
    pub proof fn lemma_moved_len(self, offsets: Seq<u32>, upto: int)
        requires
            0 <= upto <= self.body.entries.live_count(),
        ensures
            self.moved_upto(offsets, upto).encoding().len() == self.encoding().len(),
            self.moved_upto(offsets, upto).body.entries.encoding(self.little()).len()
                == self.body.entries.encoding(self.little()).len(),
        decreases upto,
    {
        let little = self.little();
        self.lemma_encoding_parts();
        self.moved_upto(offsets, upto).lemma_encoding_parts();
        if upto == 0 {
            match self.body.entries {
                EntriesView::V180PS2 { inner } => {
                    assert(inner.moved_upto(offsets, 0).entries =~= inner.entries);
                },
                EntriesView::V180 { inner } => {
                    assert(inner.moved_upto(offsets, 0).entries =~= inner.entries);
                },
                EntriesView::V170 { inner } => {
                    assert(inner.moved_upto(offsets, 0).entries =~= inner.entries);
                },
                EntriesView::V160 { inner } => {
                    assert(inner.moved_upto(offsets, 0).entries =~= inner.entries);
                },
            }
        } else {
            self.lemma_moved_len(offsets, upto - 1);
            self.body.entries.lemma_moved_step(offsets, upto - 1, little);
        }
    }

    /// There is one site for each live entry, and every site lies within the
    /// stored archive.
    pub proof fn lemma_sites_within(self, sites: Seq<usize>)
        requires
            self.body.entries.has_sites(sites, 108),
        ensures
            sites.len() == self.body.entries.live_count(),
            forall|i: int| 0 <= i < sites.len() ==> #[trigger] sites[i] + 4 <= self.encoding().len(),
    {
        let little = self.little();
        self.lemma_encoding_parts();
        assert forall|i: int| 0 <= i < sites.len() implies #[trigger] sites[i] + 4
            <= self.encoding().len() by {
            self.body.entries.lemma_moved_step(Seq::empty(), i, little);
            self.lemma_moved_len(Seq::empty(), i);
        }
    }

    /// Content offsets that are replaced by themselves leave the archive as
    /// it is.
    pub proof fn lemma_moved_same(self, offsets: Seq<u32>)
        requires
            offsets.len() == self.body.entries.live_count(),
            forall|i: int|
                0 <= i < offsets.len() ==> offsets[i]
                    == (#[trigger] self.body.entries.canonical().entries[i]).offset,
        ensures
            self.moved(offsets) == self,
    {
        self.body.entries.lemma_moved_same(offsets);
    }

    /// Overwriting the content offsets at the sites of the first `count` live
    /// entries gives the stored archive with those offsets replaced; bytes
    /// behind the table stay.
    pub proof fn lemma_patched(self, tail: Seq<u8>, sites: Seq<usize>, offsets: Seq<usize>, count: nat)
        requires
            self.body.entries.has_sites(sites, 108),
            count <= self.body.entries.live_count(),
            count <= offsets.len(),
        ensures
            patched(self.encoding() + tail, sites, offsets, self.little(), count)
                == self.moved_upto(low32s(offsets), count as int).encoding() + tail,
        decreases count,
    {
        let little = self.little();
        let values = low32s(offsets);
        if count == 0 {
            let same = self.body.entries.moved_upto(values, 0);
            match self.body.entries {
                EntriesView::V180PS2 { inner } => {
                    assert(inner.moved_upto(values, 0).entries =~= inner.entries);
                },
                EntriesView::V180 { inner } => {
                    assert(inner.moved_upto(values, 0).entries =~= inner.entries);
                },
                EntriesView::V170 { inner } => {
                    assert(inner.moved_upto(values, 0).entries =~= inner.entries);
                },
                EntriesView::V160 { inner } => {
                    assert(inner.moved_upto(values, 0).entries =~= inner.entries);
                },
            }
            assert(same == self.body.entries);
        } else {
            let k = count - 1;
            self.lemma_patched(tail, sites, offsets, k as nat);
            let cur = self.moved_upto(values, k);
            let next = self.moved_upto(values, k + 1);
            self.body.entries.lemma_moved_step(values, k, little);
            assert(self.body.entries.has_sites(sites, 108));
            assert(sites[k] == 108 + self.body.entries.site(k));
            cur.lemma_encoding_parts();
            next.lemma_encoding_parts();
            let front = cur.identifier.magic() + u32_bytes(cur.body.version, true)
                + cur.body.header.encoding(little);
            let piece = u32_bytes(values[k], little);
            lemma_splice_back(front, cur.body.entries.encoding(little), self.body.entries.site(k), piece);
            lemma_splice_front(cur.encoding(), tail, sites[k] as int, piece);
        }
    }
}

impl MstView {
    /// Whether the entry table in `bytes` holds nothing outside the fields of
    /// its entries: where `bytes` is an archive of version 1.8.0, the two
    /// bytes behind the flags of every entry are zero.
    pub open spec fn exact(bytes: Seq<u8>) -> bool {
        match Self::parsed(bytes) {
            Ok(archive) => EntriesView::exact(
                archive.body.entries.version(),
                bytes.subrange(108, bytes.len() as int),
                archive.body.header,
                archive.little(),
            ),
            Err(_) => false,
        }
    }

    /// The first 108 bytes of an archive are stored as they were read.
    pub proof fn lemma_front(bytes: Seq<u8>)
        requires
            bytes.len() >= 108,
        ensures
            MstIdentifier::identified(bytes.subrange(0, 4)).magic() + u32_bytes(
                u32_of(bytes.subrange(4, 8), true),
                true,
            ) + MstHeader::decoding(
                bytes.subrange(8, 108),
                MstIdentifier::identified(bytes.subrange(0, 4)).little(),
            ).encoding(MstIdentifier::identified(bytes.subrange(0, 4)).little())
                == bytes.subrange(0, 108),
    {
        let identifier = MstIdentifier::identified(bytes.subrange(0, 4));
        let little = identifier.little();
        identifier.lemma_magic(bytes.subrange(0, 4));
        crate::codec::lemma_u32_bytes_of(bytes.subrange(4, 8), true);
        MstHeader::lemma_encode_decode(bytes.subrange(8, 108), little);
        let a = bytes.subrange(0, 4);
        let b = bytes.subrange(4, 8);
        let c = bytes.subrange(8, 108);
        assert(a + b + c =~= bytes.subrange(0, 108));
    }

    /// Whether the archive is one that reading gives: the version word names
    /// the revision of the table, the counts of the header are the lengths
    /// of the table's arrays, and the marker is proper.
    pub open spec fn well_formed(self) -> bool {
        &&& self.body.consistent()
        &&& self.body.entries.counted_by(self.body.header)
        &&& self.identifier.proper()
    }

    /// Whether the parts of the archive are what reading `bytes` gives, and
    /// `bytes` is long enough for its table.
    pub open spec fn read_from(self, bytes: Seq<u8>, version: MstVersionKnown) -> bool {
        &&& bytes.len() >= 108
        &&& self.identifier == MstIdentifier::identified(bytes.subrange(0, 4))
        &&& self.body.version == u32_of(bytes.subrange(4, 8), true)
        &&& classify(self.body.version) == Ok::<MstVersionKnown, MstError>(version)
        &&& self.body.header == MstHeader::decoding(bytes.subrange(8, 108), self.little())
        &&& bytes.len() >= 108 + EntriesView::stored_len(version, self.body.header)
        &&& self.body.entries == EntriesView::decoding(
            version,
            bytes.subrange(108, bytes.len() as int),
            self.body.header,
            self.little(),
        )
    }

    /// Reading gives the archive whose parts are read from the bytes.
    pub proof fn lemma_parsed(self, bytes: Seq<u8>, version: MstVersionKnown)
        requires
            self.read_from(bytes, version),
        ensures
            Self::parsed(bytes) == Ok::<MstView, MstError>(self),
    {
    }

    /// Reading what was written of a well-formed archive gives the archive
    /// back, whatever follows the entry table.
    pub proof fn lemma_write_read(self, rest: Seq<u8>)
        requires
            self.well_formed(),
        ensures
            Self::parsed(self.encoding() + rest) == Ok::<MstView, MstError>(self),
    {
        let version = self.body.entries.version();
        self.lemma_written_parts(rest);
        self.lemma_parsed(self.encoding() + rest, version);
    }

    /// The parts of a well-formed archive are read from what was written of it.
    proof fn lemma_written_parts(self, rest: Seq<u8>)
        requires
            self.well_formed(),
        ensures
            self.read_from(self.encoding() + rest, self.body.entries.version()),
    {
        let little = self.little();
        let magic = self.identifier.magic();
        let word = u32_bytes(self.body.version, true);
        let header = self.body.header.encoding(little);
        let table = self.body.entries.encoding(little);
        self.identifier.lemma_magic(Seq::empty());
        crate::codec::lemma_u32_round_trip(self.body.version, true);
        self.body.header.lemma_decode_encode(little);
        self.body.header.lemma_width(little);
        self.body.entries.lemma_decoding_encoding(rest, self.body.header, little);
        crate::codec::lemma_front_parts(magic, word, header, table, rest);
    }

    /// The parts of an archive that was read.
    proof fn lemma_parsed_parts(bytes: Seq<u8>)
        requires
            Self::parsed(bytes) is Ok,
        ensures
            bytes.len() >= 108,
            classify(u32_of(bytes.subrange(4, 8), true)) is Ok,
            bytes.len() >= 108 + EntriesView::stored_len(
                classify(u32_of(bytes.subrange(4, 8), true))->Ok_0,
                MstHeader::decoding(
                    bytes.subrange(8, 108),
                    MstIdentifier::identified(bytes.subrange(0, 4)).little(),
                ),
            ),
            Self::parsed(bytes)->Ok_0 == (MstView {
                identifier: MstIdentifier::identified(bytes.subrange(0, 4)),
                body: MstBodyView {
                    version: u32_of(bytes.subrange(4, 8), true),
                    header: MstHeader::decoding(
                        bytes.subrange(8, 108),
                        MstIdentifier::identified(bytes.subrange(0, 4)).little(),
                    ),
                    entries: EntriesView::decoding(
                        classify(u32_of(bytes.subrange(4, 8), true))->Ok_0,
                        bytes.subrange(108, bytes.len() as int),
                        MstHeader::decoding(
                            bytes.subrange(8, 108),
                            MstIdentifier::identified(bytes.subrange(0, 4)).little(),
                        ),
                        MstIdentifier::identified(bytes.subrange(0, 4)).little(),
                    ),
                },
            }),
    {
    }

    /// The round trip of an archive whose parts were read from `bytes`.
    proof fn lemma_round_trip_parts(self, bytes: Seq<u8>, version: MstVersionKnown)
        requires
            self.read_from(bytes, version),
        ensures
            self.written() == Ok::<Seq<u8>, MstError>(self.encoding()),
            self.encoding().len() == 108 + EntriesView::stored_len(version, self.body.header),
            EntriesView::exact(
                version,
                bytes.subrange(108, bytes.len() as int),
                self.body.header,
                self.little(),
            ) <==> self.encoding() == bytes.subrange(0, self.encoding().len() as int),
    {
        let little = self.little();
        let header = self.body.header;
        let tail = bytes.subrange(108, bytes.len() as int);
        let stored = EntriesView::stored_len(version, header) as int;
        EntriesView::lemma_round_trip(version, tail, header, little);
        Self::lemma_front(bytes);
        self.lemma_encoding_parts();
        crate::codec::lemma_prefix_parts(bytes, 108, stored, self.body.entries.encoding(little));
    }

    /// An archive that was read can be written, and what is written is as
    /// long as what was read of `bytes`. Writing gives those bytes back
    /// exactly when `bytes` is exact.
    pub proof fn lemma_read_write(bytes: Seq<u8>)
        requires
            Self::parsed(bytes) is Ok,
        ensures
            Self::parsed(bytes)->Ok_0.written() == Ok::<Seq<u8>, MstError>(
                Self::parsed(bytes)->Ok_0.encoding(),
            ),
            Self::parsed(bytes)->Ok_0.encoding().len() <= bytes.len(),
            Self::exact(bytes) <==> Self::parsed(bytes)->Ok_0.encoding() == bytes.subrange(
                0,
                Self::parsed(bytes)->Ok_0.encoding().len() as int,
            ),
    {
        Self::lemma_parsed_parts(bytes);
        let archive = Self::parsed(bytes)->Ok_0;
        let version = classify(u32_of(bytes.subrange(4, 8), true))->Ok_0;
        archive.lemma_round_trip_parts(bytes, version);
        EntriesView::lemma_round_trip(
            version,
            bytes.subrange(108, bytes.len() as int),
            archive.body.header,
            archive.little(),
        );
    }
}

impl Clone for MstBody {
    fn clone(&self) -> (copy: Self)
        ensures
            copy@ == self@,
    {
        MstBody { version: self.version, header: self.header, entries: self.entries.clone() }
    }
}

impl Clone for Mst {
    fn clone(&self) -> (copy: Self)
        ensures
            copy@ == self@,
    {
        Mst { identifier: self.identifier, body: self.body.clone() }
    }
}

impl MstBody {
    /// The version word.
    pub fn version(&self) -> (version: &MstVersion)
        ensures
            *version == self.version,
    {
        &self.version
    }

    /// The body in revision `new_version`. Where the version word names that
    /// revision already, the result is a copy. Else the minor version of the
    /// word is rewritten and the table is converted through the canonical
    /// form; header and content offsets stay as they are.
    pub fn convert(&self, new_version: MstVersionKnown) -> (converted: Self)
        ensures
            converted@ == self@.converted(new_version),
    {
        match MstVersionKnown::try_from(&self.version) {
            Ok(version) => {
                if version == new_version {
                    return self.clone();
                }
            },
            Err(_) => {},
        }
        let mut new_mst_version = self.version;
        match new_version {
            MstVersionKnown::V180PS2 => new_mst_version.set_minor(8),
            MstVersionKnown::V180 => new_mst_version.set_minor(8),
            MstVersionKnown::V170 => new_mst_version.set_minor(7),
            MstVersionKnown::V160 => new_mst_version.set_minor(6),
        }
        MstBody {
            version: new_mst_version,
            header: self.header,
            entries: self.entries.convert(new_version),
        }
    }
}

impl Mst {
    /// Reads an archive from its bytes: marker, version word, header and
    /// entry table. Bytes behind the table are not looked at. Nothing is
    /// returned of an archive that cannot be read in full.
    pub fn read(bytes: &[u8]) -> (archive: Result<Mst, MstError>)
        ensures
            match archive {
                Ok(mst) => MstView::parsed(bytes@) == Ok::<MstView, MstError>(mst@),
                Err(error) => MstView::parsed(bytes@) == Err::<MstView, MstError>(error),
            },
    {
        if bytes.len() < 8 {
            return Err(MstError::Io);
        }
        let identifier = MstIdentifier::get(bytes, 0);
        let little = identifier.is_little();
        let version = MstVersion::parse(get_u32(bytes, 4, true));
        let known = match MstVersionKnown::try_from(&version) {
            Ok(known) => known,
            Err(_) => {
                return Err(MstError::UnknownVersion);
            },
        };
        if bytes.len() < HEADER_LEN {
            return Err(MstError::Io);
        }
        let header = MstHeader::get(bytes, 8, little);
        match Entries::get(known, bytes, HEADER_LEN, &header, little) {
            Ok((entries, _end)) => Ok(Mst { identifier, body: MstBody { version, header, entries } }),
            Err(error) => Err(error),
        }
    }

    /// Appends the bytes of the archive, up to the end of the entry table, to
    /// `out`. Returns, for each live entry in order, the place in `out` of
    /// its content offset. Fails, and leaves `out` as it is, where the
    /// version word names no known revision or another one than the table's.
    pub fn write(&self, out: &mut Vec<u8>) -> (sites: Result<Vec<usize>, MstError>)
        ensures
            match sites {
                Ok(sites) => {
                    &&& self@.written() == Ok::<Seq<u8>, MstError>(self@.encoding())
                    &&& final(out)@ == old(out)@ + self@.encoding()
                    &&& self@.body.entries.has_sites(sites@, (old(out)@.len() + 108) as int)
                },
                Err(error) => {
                    &&& self@.written() == Err::<Seq<u8>, MstError>(error)
                    &&& final(out)@ == old(out)@
                },
            },
    {
        let known = match MstVersionKnown::try_from(&self.body.version) {
            Ok(known) => known,
            Err(_) => {
                return Err(MstError::UnknownVersion);
            },
        };
        if known != self.body.entries.version() {
            return Err(MstError::LayoutMismatch);
        }
        let little = self.identifier.is_little();
        self.identifier.put(out);
        put_u32(out, self.body.version.word, true);
        self.body.header.put(out, little);
        proof {
            self.identifier.lemma_magic(Seq::empty());
            self.body.header.lemma_width(little);
        }
        let sites = self.body.entries.put(out, little);
        assert(out@ =~= old(out)@ + self@.encoding());
        Ok(sites)
    }

    /// The live entries in canonical form, in order.
    pub fn collect_entries(&self) -> (entries: Vec<CanonicalEntry>)
        ensures
            entries@ == self@.body.entries.canonical().entries,
    {
        self.body.entries.into_canonical().entries
    }

    /// The live support entries in canonical form, in order.
    pub fn collect_support_entries(&self) -> (entries: Vec<CanonicalSupportEntry>)
        ensures
            entries@ == self@.body.entries.canonical().support_entries,
    {
        self.body.entries.into_canonical().support_entries
    }
}

} // verus!
