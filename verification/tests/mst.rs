use fang::actions::mst::strip;
use fang::error::MstError;
use fang::mst::builder::MstBuilder;
use fang::mst::entries::{Entries, InnerEntries};
use fang::mst::entry::{
    Entry, EntryV160, EntryV170, EntryV180Variable, Filename, SupportEntryVariable,
};
use fang::mst::header::{MstCompilers, MstHeader};
use fang::mst::{Mst, MstBody, MstIdentifier, MstPlatformKnown, MstVersion, MstVersionKnown};

fn stamps(base: u32) -> MstCompilers {
    MstCompilers {
        tga_compiler_version: base,
        ape_compiler_version: base + 1,
        mtx_compiler_version: base + 2,
        csv_compiler_version: base + 3,
        fnt_compiler_version: base + 4,
        sma_compiler_version: base + 5,
        gt_compiler_version: base + 6,
        wvb_compiler_version: base + 7,
        fpr_compiler_version: base + 8,
        cam_compiler_version: base + 9,
    }
}

/// A stripped archive: header and table of an archive with `count` entries.
fn stripped(version: MstVersionKnown, platform: MstPlatformKnown, count: usize) -> Vec<u8> {
    let mut builder = MstBuilder::new(version, platform, stamps(40));
    for i in 0..count {
        builder.add_entry_memory(format!("file{}.ape", i), vec![i as u8; 100 * i + 1], Some(1000 + i as u32));
    }
    let whole = builder.write_at(0, &Vec::new()).expect("Failed to write Mst");
    let contentless = strip(&whole).expect("Failed to strip Mst");
    assert!(contentless.len() < whole.len() || count == 0);
    contentless
}

fn test_single(
    in_buf: &[u8],
    expected_little: bool,
    expected_version: (u8, u8, u8),
    expected_xb_pc_tools_gc_ps2: (bool, bool, bool, bool, bool),
) {
    let mst = Mst::read(in_buf).expect("Failed to parse Mst");

    assert_eq!(mst.identifier.is_little(), expected_little, "is little endian");
    assert_eq!(mst.body.version().major(), expected_version.0, "major version");
    assert_eq!(mst.body.version().minor(), expected_version.1, "minor version");
    assert_eq!(mst.body.version().patch(), expected_version.2, "patch version");
    assert_eq!(mst.body.version().xbox() > 0, expected_xb_pc_tools_gc_ps2.0, "is xbox");
    assert_eq!(mst.body.version().pc() > 0, expected_xb_pc_tools_gc_ps2.1, "is pc");
    assert_eq!(mst.body.version().tools() > 0, expected_xb_pc_tools_gc_ps2.2, "is tools");
    assert_eq!(mst.body.version().gc() > 0, expected_xb_pc_tools_gc_ps2.3, "is gc");
    assert_eq!(mst.body.version().ps2() > 0, expected_xb_pc_tools_gc_ps2.4, "is ps2");

    let mut out_buf = Vec::new();
    mst.write(&mut out_buf).expect("Failed to write Mst");

    let in_file_stripped_length = out_buf.len();
    assert!(in_file_stripped_length <= in_buf.len());
    assert_eq!(
        &in_buf[..in_file_stripped_length],
        &out_buf[..in_file_stripped_length],
        "identical bytes"
    );
}

#[test]
fn test_heman_xb() {
    test_single(
        &stripped(MstVersionKnown::V160, MstPlatformKnown::Xbox, 3),
        true,
        (1, 6, 0),
        (true, false, true, false, false),
    );
    test_single(
        &stripped(MstVersionKnown::V160, MstPlatformKnown::Xbox, 12),
        true,
        (1, 6, 0),
        (true, false, true, false, false),
    );
}

#[test]
fn test_metalarms_gc() {
    test_single(
        &stripped(MstVersionKnown::V180, MstPlatformKnown::GameCube, 5),
        false,
        (1, 8, 0),
        (false, false, true, true, false),
    );
    test_single(
        &stripped(MstVersionKnown::V180, MstPlatformKnown::GameCube, 1),
        false,
        (1, 8, 0),
        (false, false, true, true, false),
    );
}

#[test]
fn test_metalarms_xb() {
    test_single(
        &stripped(MstVersionKnown::V180, MstPlatformKnown::Xbox, 2),
        true,
        (1, 8, 0),
        (true, false, true, false, false),
    );
    test_single(
        &stripped(MstVersionKnown::V180, MstPlatformKnown::Xbox, 9),
        true,
        (1, 8, 0),
        (true, false, true, false, false),
    );
    test_single(
        &stripped(MstVersionKnown::V180, MstPlatformKnown::Xbox, 0),
        true,
        (1, 8, 0),
        (true, false, true, false, false),
    );
    test_single(
        &stripped(MstVersionKnown::V170, MstPlatformKnown::Xbox, 4),
        true,
        (1, 7, 0),
        (true, false, true, false, false),
    );
}

#[test]
fn test_custom_xb() {
    test_single(
        &stripped(MstVersionKnown::V180, MstPlatformKnown::Xbox, 7),
        true,
        (1, 8, 0),
        (true, false, true, false, false),
    );
}

fn header(counts: (u32, u32, u32, u32)) -> MstHeader {
    MstHeader {
        bytes_in_file: 0x1111_2222,
        num_entries: counts.0,
        num_free_entries: counts.1,
        num_support_entries: counts.2,
        num_free_support_entries: counts.3,
        data_offset: 0x800,
        compilers: stamps(7),
        reserved: [1, 2, 3, 4, 5, 6, 7, 8, 9],
    }
}

fn wide_entry(name: &str, flags: u16, crc: u32) -> EntryV180Variable<20> {
    EntryV180Variable {
        filename: Filename::<20>::new({
            let mut bytes = [0u8; 20];
            bytes[..name.len()].copy_from_slice(name.as_bytes());
            bytes
        }),
        flags,
        offset: 0x800,
        size: 3,
        timestamp: 99,
        crc,
    }
}

fn wide_archive() -> Mst {
    Mst {
        identifier: MstIdentifier::FangLittleEndian,
        body: MstBody {
            version: MstVersion::from_known(MstVersionKnown::V180PS2, MstPlatformKnown::PlayStation2),
            header: header((2, 1, 1, 1)),
            entries: Entries::V180PS2 {
                inner: InnerEntries {
                    entries: vec![wide_entry("short.ape", 3, 7), wide_entry("a_very_long_name.tga", 4, 8)],
                    free_entries: vec![wide_entry("free", 0, 0)],
                    support_entries: vec![SupportEntryVariable {
                        filename: Filename::<20>::from(&"support.csv".to_string()),
                        timestamp: 5,
                    }],
                    free_support_entries: vec![SupportEntryVariable {
                        filename: Filename::<20>::from(&String::new()),
                        timestamp: 0,
                    }],
                },
            },
        },
    }
}

#[test]
fn archive_with_all_four_arrays_round_trips() {
    let mst = wide_archive();
    let mut bytes = Vec::new();
    let sites = mst.write(&mut bytes).unwrap();
    assert_eq!(bytes.len(), 108 + 3 * 40 + 2 * 24);
    assert_eq!(sites, vec![108 + 24, 108 + 40 + 24]);
    assert_eq!(&bytes[8..12], &0x1111_2222u32.to_le_bytes());
    assert_eq!(&bytes[12..16], &2u32.to_le_bytes());
    assert_eq!(&bytes[72..76], &1u32.to_le_bytes());
    assert_eq!(&bytes[104..108], &9u32.to_le_bytes());
    bytes.extend_from_slice(&[0xaa; 10]);
    let read = Mst::read(&bytes).unwrap();
    assert_eq!(read.body.header.num_free_entries, 1);
    assert_eq!(read.body.header.reserved, [1, 2, 3, 4, 5, 6, 7, 8, 9]);
    assert_eq!(read.body.header.compilers.cam_compiler_version, 16);
    let entries = read.collect_entries();
    assert_eq!(entries.len(), 2);
    assert_eq!(entries[1].filename(), "a_very_long_name.tga");
    assert_eq!(entries[1].flags, 4);
    assert_eq!(read.collect_support_entries().len(), 1);
    let mut again = Vec::new();
    read.write(&mut again).unwrap();
    assert_eq!(&again[..], &bytes[..again.len()]);
}

#[test]
fn unknown_magic_is_read_little_endian_and_kept() {
    let mut bytes = Vec::new();
    wide_archive().write(&mut bytes).unwrap();
    bytes[0..4].copy_from_slice(b"WXYZ");
    let read = Mst::read(&bytes).unwrap();
    assert!(matches!(read.identifier, MstIdentifier::Unknown([0x57, 0x58, 0x59, 0x5a])));
    assert!(read.identifier.is_little());
    assert_eq!(read.body.header.num_entries, 2);
    let mut again = Vec::new();
    read.write(&mut again).unwrap();
    assert_eq!(again, bytes);
}

#[test]
fn big_endian_archive_keeps_version_word_little_endian() {
    let bytes = stripped(MstVersionKnown::V170, MstPlatformKnown::GameCube, 2);
    assert_eq!(&bytes[0..4], b"GNAF");
    assert_eq!(&bytes[4..8], &[0x00, 0x07, 0x01, 0x18]);
    assert_eq!(&bytes[12..16], &[0, 0, 0, 2]);
}

#[test]
fn reading_fails_where_bytes_end_early() {
    let mut bytes = Vec::new();
    wide_archive().write(&mut bytes).unwrap();
    for len in [0, 3, 7, 8, 107, 108, bytes.len() - 1] {
        assert_eq!(Mst::read(&bytes[..len]).err(), Some(MstError::Io), "{}", len);
    }
    assert!(Mst::read(&bytes).is_ok());
}

#[test]
fn reading_fails_on_unknown_version() {
    let mut bytes = Vec::new();
    wide_archive().write(&mut bytes).unwrap();
    bytes[5] = 9;
    assert_eq!(Mst::read(&bytes).err(), Some(MstError::UnknownVersion));
    assert_eq!(Mst::read(&bytes[..8]).err(), Some(MstError::UnknownVersion));
}

#[test]
fn writing_fails_on_mismatch_and_leaves_output_alone() {
    let mut mst = wide_archive();
    mst.body.version = MstVersion::from_known(MstVersionKnown::V170, MstPlatformKnown::PlayStation2);
    let mut out = vec![1, 2, 3];
    assert_eq!(mst.write(&mut out).err(), Some(MstError::LayoutMismatch));
    assert_eq!(out, vec![1, 2, 3]);
    mst.body.version = MstVersion::parse(0);
    assert_eq!(mst.write(&mut out).err(), Some(MstError::UnknownVersion));
    assert_eq!(out, vec![1, 2, 3]);
}

#[test]
fn conversion_to_own_revision_is_a_copy() {
    let mst = wide_archive();
    let same = mst.body.convert(MstVersionKnown::V180PS2);
    assert_eq!(same.version().word(), mst.body.version().word());
    let mut a = Vec::new();
    let mut b = Vec::new();
    mst.write(&mut a).unwrap();
    Mst { identifier: mst.identifier, body: same }.write(&mut b).unwrap();
    assert_eq!(a, b);
}

#[test]
fn conversion_there_and_back_restores_word_and_short_names() {
    let mst = wide_archive();
    let word = mst.body.version().word();
    for via in [MstVersionKnown::V180, MstVersionKnown::V170, MstVersionKnown::V160] {
        let there = mst.body.convert(via);
        assert_eq!(there.entries.version(), via);
        let back = there.convert(MstVersionKnown::V180PS2);
        assert_eq!(back.version().word(), word);
        assert_eq!(back.header.num_entries, 2);
        let entries = back.entries.into_canonical().entries;
        assert_eq!(entries[0].filename(), "short.ape");
        assert_eq!(entries[0].offset, 0x800);
        assert_eq!(entries[0].size, 3);
        assert_eq!(entries[0].timestamp, 99);
        // the name of 20 characters is cut to 15 on the way and stays cut
        assert_eq!(entries[1].filename(), "a_very_long_nam");
    }
}

#[test]
fn conversion_drops_and_zeroes_absent_fields() {
    let mst = wide_archive();
    let v170 = mst.body.convert(MstVersionKnown::V170);
    assert_eq!(v170.version().minor(), 7);
    match &v170.entries {
        Entries::V170 { inner } => {
            assert_eq!(inner.entries[0].crc, 7);
            assert_eq!(inner.free_entries.len(), 1);
            assert_eq!(inner.support_entries.len(), 1);
            assert_eq!(inner.free_support_entries.len(), 1);
        }
        _ => panic!("not a table of version 1.7.0"),
    }
    let wide = v170.entries.into_canonical();
    assert_eq!(wide.entries[0].flags, 0);
    assert_eq!(wide.entries[0].crc, 7);
    let v160 = mst.body.convert(MstVersionKnown::V160);
    assert_eq!(v160.version().minor(), 6);
    let wide = v160.entries.into_canonical();
    assert_eq!(wide.entries[0].flags, 0);
    assert_eq!(wide.entries[0].crc, 0);
    let v180 = mst.body.convert(MstVersionKnown::V180);
    let wide = v180.entries.into_canonical();
    assert_eq!(wide.entries[0].flags, 3);
    assert_eq!(wide.entries[0].crc, 7);
}

#[test]
fn narrow_revisions_convert_without_loss_of_short_names() {
    let narrow = Mst {
        identifier: MstIdentifier::FangBigEndian,
        body: MstBody {
            version: MstVersion::from_known(MstVersionKnown::V160, MstPlatformKnown::GameCube),
            header: header((1, 0, 0, 0)),
            entries: Entries::V160 {
                inner: InnerEntries {
                    entries: vec![EntryV160 {
                        filename: Filename::<16>::from(&"level01.wld".to_string()),
                        offset: 4096,
                        size: 10,
                        timestamp: 123,
                    }],
                    free_entries: Vec::new(),
                    support_entries: Vec::new(),
                    free_support_entries: Vec::new(),
                },
            },
        },
    };
    for via in [MstVersionKnown::V170, MstVersionKnown::V180, MstVersionKnown::V180PS2] {
        let back = narrow.body.convert(via).convert(MstVersionKnown::V160);
        assert_eq!(back.version().word(), narrow.body.version().word());
        match &back.entries {
            Entries::V160 { inner } => {
                assert_eq!(inner.entries.len(), 1);
                assert_eq!(inner.entries[0].filename.bytes(), *b"level01.wld\0\0\0\0\0");
                assert_eq!(inner.entries[0].offset, 4096);
                assert_eq!(inner.entries[0].size, 10);
                assert_eq!(inner.entries[0].timestamp, 123);
            }
            _ => panic!("not a table of version 1.6.0"),
        }
    }
    let _ = EntryV170::from_canonical(&narrow.collect_entries()[0]);
}

#[test]
fn bytes_behind_the_flags_are_not_kept() {
    let mut bytes = Vec::new();
    wide_archive().write(&mut bytes).unwrap();
    // the two unused bytes behind the flags of the first entry
    bytes[108 + 22] = 0x55;
    bytes[108 + 23] = 0x66;
    let read = Mst::read(&bytes).unwrap();
    assert_eq!(read.collect_entries()[0].flags, 3);
    let mut again = Vec::new();
    read.write(&mut again).unwrap();
    assert_eq!(again.len(), bytes.len());
    assert_eq!(&again[108 + 22..108 + 24], &[0, 0]);
    assert_eq!(&again[..108 + 22], &bytes[..108 + 22]);
    assert_eq!(&again[108 + 24..], &bytes[108 + 24..]);
}

#[test]
fn error_messages() {
    assert_eq!(MstError::UnknownVersion.message(), "not a known Mst version");
    assert_eq!(MstError::UnknownPlatform.message(), "not a known Mst platform");
    assert_eq!(
        MstError::LayoutMismatch.message(),
        "Mst version does not match the version of its entries"
    );
    assert_eq!(MstError::InvalidConversion.message(), "no conversion between these Mst versions");
    assert_eq!(MstError::Io.message(), "failed to read the whole of a file");
}
