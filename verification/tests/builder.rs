use fang::error::MstError;
use fang::mst::builder::{input, range, MstBuilder, SourceFile};
use fang::mst::entries::Entries;
use fang::mst::entry::Entry;
use fang::mst::header::MstCompilers;
use fang::mst::layout::{append_blocks, low32_of, patch_offsets};
use fang::mst::{Mst, MstPlatformKnown, MstVersionKnown};

fn stamps() -> MstCompilers {
    MstCompilers {
        tga_compiler_version: 1,
        ape_compiler_version: 2,
        mtx_compiler_version: 3,
        csv_compiler_version: 4,
        fnt_compiler_version: 5,
        sma_compiler_version: 6,
        gt_compiler_version: 7,
        wvb_compiler_version: 8,
        fpr_compiler_version: 9,
        cam_compiler_version: 10,
    }
}

#[test]
fn empty_archive_is_header_only() {
    for (version, platform, magic) in [
        (MstVersionKnown::V180, MstPlatformKnown::Xbox, b"FANG"),
        (MstVersionKnown::V170, MstPlatformKnown::GameCube, b"GNAF"),
        (MstVersionKnown::V160, MstPlatformKnown::PC, b"FANG"),
        (MstVersionKnown::V180PS2, MstPlatformKnown::PlayStation2, b"FANG"),
    ] {
        let builder = MstBuilder::new(version, platform, stamps());
        assert_eq!(builder.len(), 0);
        let bytes = builder.write_at(7, &Vec::new()).unwrap();
        assert_eq!(bytes.len(), 108);
        assert_eq!(&bytes[0..4], magic);
        let mst = Mst::read(&bytes).unwrap();
        assert_eq!(mst.body.header.bytes_in_file, 108);
        assert_eq!(mst.body.header.data_offset, 108);
        assert_eq!(mst.body.header.num_entries, 0);
        assert_eq!(mst.body.header.num_free_entries, 0);
        assert_eq!(mst.body.header.num_support_entries, 0);
        assert_eq!(mst.body.header.num_free_support_entries, 0);
        assert_eq!(mst.body.header.compilers.tga_compiler_version, 1);
        assert_eq!(mst.body.header.compilers.cam_compiler_version, 10);
        assert_eq!(mst.body.header.reserved, [0; 9]);
        assert_eq!(mst.collect_entries().len(), 0);
        assert_eq!(mst.body.entries.version(), version);
    }
}

#[test]
fn empty_xbox_archive_bytes() {
    let builder = MstBuilder::new(MstVersionKnown::V180, MstPlatformKnown::Xbox, stamps());
    let bytes = builder.write_at(7, &Vec::new()).unwrap();
    assert_eq!(&bytes[4..8], &[0x00, 0x08, 0x01, 0x09]);
    assert_eq!(&bytes[8..12], &108u32.to_le_bytes());
    assert_eq!(&bytes[12..28], &[0; 16]);
    assert_eq!(&bytes[28..32], &108u32.to_le_bytes());
    assert_eq!(&bytes[32..36], &1u32.to_le_bytes());
    assert_eq!(&bytes[68..72], &10u32.to_le_bytes());
    assert!(bytes[72..108].iter().all(|b| *b == 0));
}

#[test]
fn two_memory_entries_are_aligned() {
    let mut builder = MstBuilder::new(MstVersionKnown::V170, MstPlatformKnown::PC, stamps());
    builder.add_entry_memory("a.dat".to_string(), vec![1u8; 3000], Some(11));
    builder.add_entry_memory("b.dat".to_string(), vec![2u8; 10], Some(12));
    assert!(builder.has_entry("a.dat".to_string()));
    assert!(!builder.has_entry("c.dat".to_string()));
    let bytes = builder.write_at(0, &Vec::new()).unwrap();
    // 108 bytes of header and two entries of 32 bytes are 172 bytes; the
    // first block starts at 2048, the second behind 2048 + 3000 at 6144
    assert_eq!(bytes.len(), 6144 + 10);
    assert!(bytes[172..2048].iter().all(|b| *b == 0));
    assert!(bytes[2048..5048].iter().all(|b| *b == 1));
    assert!(bytes[5048..6144].iter().all(|b| *b == 0));
    assert!(bytes[6144..6154].iter().all(|b| *b == 2));
    let mst = Mst::read(&bytes).unwrap();
    assert_eq!(mst.body.header.bytes_in_file, 6154);
    assert_eq!(mst.body.header.num_entries, 2);
    assert_eq!(mst.body.header.data_offset, 2048);
    let entries = mst.collect_entries();
    assert_eq!(entries.len(), 2);
    assert_eq!(entries[0].filename(), "a.dat");
    assert_eq!(entries[0].offset(), 2048);
    assert_eq!(entries[0].size(), 3000);
    assert_eq!(entries[0].timestamp(), 11);
    assert_eq!(entries[0].flags, 0);
    assert_eq!(entries[0].crc, 0);
    assert_eq!(entries[1].filename(), "b.dat");
    assert_eq!(entries[1].offset(), 6144);
    assert_eq!(entries[1].size(), 10);
    assert_eq!(entries[1].timestamp(), 12);
    for entry in &entries {
        assert_eq!(entry.offset % 2048, 0);
        assert!(mst.body.header.data_offset <= entry.offset);
    }
}

#[test]
fn block_that_ends_on_a_boundary_needs_no_padding() {
    let mut builder = MstBuilder::new(MstVersionKnown::V160, MstPlatformKnown::Xbox, stamps());
    builder.add_entry_memory("a".to_string(), vec![1u8; 2048], Some(1));
    builder.add_entry_memory("b".to_string(), Vec::new(), Some(2));
    builder.add_entry_memory("c".to_string(), vec![3u8; 1], Some(3));
    let bytes = builder.write_at(0, &Vec::new()).unwrap();
    let entries = Mst::read(&bytes).unwrap().collect_entries();
    assert_eq!(entries[0].offset, 2048);
    assert_eq!(entries[1].offset, 4096);
    assert_eq!(entries[1].size, 0);
    assert_eq!(entries[2].offset, 4096);
    assert_eq!(bytes.len(), 4097);
}

#[test]
fn file_source_takes_range() {
    let mut builder = MstBuilder::new(MstVersionKnown::V160, MstPlatformKnown::GameCube, stamps());
    builder.add_entry_file("x.bin".to_string(), "in.mst".to_string(), 2, 3, None);
    let files = vec![
        SourceFile { path: "other".to_string(), data: vec![0; 9] },
        SourceFile { path: "in.mst".to_string(), data: vec![9, 8, 7, 6, 5, 4] },
        SourceFile { path: "in.mst".to_string(), data: vec![1; 9] },
    ];
    let bytes = builder.write_at(77, &files).unwrap();
    assert_eq!(&bytes[0..4], b"GNAF");
    assert_eq!(bytes.len(), 2048 + 3);
    assert_eq!(&bytes[2048..2051], &[7, 6, 5]);
    assert_eq!(&bytes[8..12], &2051u32.to_be_bytes());
    assert_eq!(&bytes[28..32], &2048u32.to_be_bytes());
    let mst = Mst::read(&bytes).unwrap();
    let entries = mst.collect_entries();
    assert_eq!(entries[0].timestamp(), 77);
    assert_eq!(entries[0].offset(), 2048);
    assert_eq!(entries[0].size(), 3);
}

#[test]
fn unreadable_content_is_an_io_error() {
    let files = vec![SourceFile { path: "in".to_string(), data: vec![0; 6] }];
    let mut missing = MstBuilder::new(MstVersionKnown::V160, MstPlatformKnown::PC, stamps());
    missing.add_entry_file("x".to_string(), "nowhere".to_string(), 0, 0, None);
    assert_eq!(missing.write_at(0, &files).err(), Some(MstError::Io));
    let mut short = MstBuilder::new(MstVersionKnown::V160, MstPlatformKnown::PC, stamps());
    short.add_entry_file("x".to_string(), "in".to_string(), 4, 3, None);
    assert_eq!(short.write_at(0, &files).err(), Some(MstError::Io));
    let mut huge = MstBuilder::new(MstVersionKnown::V160, MstPlatformKnown::PC, stamps());
    huge.add_entry_file("x".to_string(), "in".to_string(), usize::MAX, 2, None);
    assert_eq!(huge.write_at(0, &files).err(), Some(MstError::Io));
    let mut empty = MstBuilder::new(MstVersionKnown::V160, MstPlatformKnown::PC, stamps());
    empty.add_entry_file("x".to_string(), "in".to_string(), 100, 0, None);
    // an empty block is still brought to a boundary
    assert_eq!(empty.write_at(0, &files).unwrap().len(), 2048);
    let mut exact = MstBuilder::new(MstVersionKnown::V160, MstPlatformKnown::PC, stamps());
    exact.add_entry_file("x".to_string(), "in".to_string(), 3, 3, None);
    assert_eq!(exact.write_at(0, &files).unwrap().len(), 2048 + 3);
}

#[test]
fn incompatible_revision_and_platform_is_a_layout_mismatch() {
    let bad = MstBuilder::new(MstVersionKnown::V180, MstPlatformKnown::PlayStation2, stamps());
    assert_eq!(bad.write_at(0, &Vec::new()).err(), Some(MstError::LayoutMismatch));
    let bad = MstBuilder::new(MstVersionKnown::V180PS2, MstPlatformKnown::Xbox, stamps());
    assert_eq!(bad.write_at(0, &Vec::new()).err(), Some(MstError::LayoutMismatch));
    let good = MstBuilder::new(MstVersionKnown::V170, MstPlatformKnown::PlayStation2, stamps());
    assert!(good.write_at(0, &Vec::new()).is_ok());
}

#[test]
fn last_source_of_a_path_wins_and_keeps_its_place() {
    let mut builder = MstBuilder::new(MstVersionKnown::V180, MstPlatformKnown::PC, stamps());
    builder.add_entry_memory("one".to_string(), vec![1; 4], Some(1));
    builder.add_entry_memory("two".to_string(), vec![2; 4], Some(2));
    builder.add_entry_memory("one".to_string(), vec![3; 6], Some(3));
    assert_eq!(builder.len(), 2);
    let bytes = builder.write_at(0, &Vec::new()).unwrap();
    let entries = Mst::read(&bytes).unwrap().collect_entries();
    assert_eq!(entries.len(), 2);
    assert_eq!(entries[0].filename(), "one");
    assert_eq!(entries[0].size(), 6);
    assert_eq!(entries[0].timestamp(), 3);
    assert_eq!(entries[1].filename(), "two");
    assert_eq!(&bytes[2048..2054], &[3; 6]);
    assert_eq!(&bytes[4096..4100], &[2; 4]);
}

#[test]
fn same_sources_give_same_bytes() {
    let build = |now: u32| {
        let mut builder = MstBuilder::new(MstVersionKnown::V180PS2, MstPlatformKnown::PlayStation2, stamps());
        builder.add_entry_memory("b".to_string(), vec![2; 40], Some(9));
        builder.add_entry_memory("a".to_string(), vec![1; 4000], Some(8));
        builder.add_entry_file("c".to_string(), "f".to_string(), 1, 2, Some(7));
        builder.write_at(now, &vec![SourceFile { path: "f".to_string(), data: vec![5, 6, 7] }]).unwrap()
    };
    let first = build(1);
    assert_eq!(first, build(1));
    // every entry has its own time stamp, so the time does not show
    assert_eq!(first, build(2));
    let entries = Mst::read(&first).unwrap().collect_entries();
    assert_eq!(entries[0].filename(), "b");
    assert_eq!(entries[1].filename(), "a");
    assert_eq!(entries[2].filename(), "c");
}

#[test]
fn present_time_is_used_without_explicit_stamp() {
    let mut builder = MstBuilder::new(MstVersionKnown::V180, MstPlatformKnown::PC, stamps());
    builder.add_entry_memory("timed".to_string(), vec![1], None);
    builder.add_entry_memory("fixed".to_string(), vec![2], Some(5));
    let table = builder.create_entries();
    match table {
        Entries::V180 { inner } => {
            // later than 2020-01-01
            assert!(inner.entries[0].timestamp > 1_577_836_800);
            assert_eq!(inner.entries[1].timestamp, 5);
            assert_eq!(inner.entries[0].offset, 0);
        }
        _ => panic!("not a table of version 1.8.0"),
    }
    let draft = builder.create_mst();
    assert_eq!(draft.body.header.num_entries, 2);
    assert_eq!(draft.body.header.bytes_in_file, 0);
    assert_eq!(draft.body.header.data_offset, 0);
    let at = builder.create_mst_at(42);
    assert_eq!(at.collect_entries()[0].timestamp, 42);
    let bytes = builder.write(&Vec::new()).unwrap();
    let entries = Mst::read(&bytes).unwrap().collect_entries();
    assert!(entries[0].timestamp > 1_577_836_800);
    assert_eq!(entries[1].timestamp, 5);
}

#[test]
fn builder_from_archive_copies_revision_platform_and_stamps() {
    let mut source = MstBuilder::new(MstVersionKnown::V170, MstPlatformKnown::GameCube, stamps());
    source.add_entry_memory("x".to_string(), vec![1], Some(1));
    let bytes = source.write_at(0, &Vec::new()).unwrap();
    let mst = Mst::read(&bytes).unwrap();
    let mut builder = MstBuilder::from_mst_empty(&mst).unwrap();
    assert_eq!(builder.len(), 0);
    let empty = builder.create_mst_at(0);
    assert_eq!(empty.body.version().word(), mst.body.version().word());
    assert_eq!(empty.body.header.compilers.gt_compiler_version, 7);
    assert!(!empty.identifier.is_little());
    builder.set_version(&MstVersionKnown::V160);
    assert_eq!(builder.create_mst_at(0).body.entries.version(), MstVersionKnown::V160);
    let mut no_platform = Mst::read(&bytes).unwrap();
    no_platform.body.version.set_gc(0);
    assert_eq!(MstBuilder::from_mst_empty(&no_platform).err(), Some(MstError::UnknownPlatform));
    no_platform.body.version.set_minor(3);
    assert_eq!(MstBuilder::from_mst_empty(&no_platform).err(), Some(MstError::UnknownPlatform));
    no_platform.body.version.set_pc(1);
    assert_eq!(MstBuilder::from_mst_empty(&no_platform).err(), Some(MstError::UnknownVersion));
}

#[test]
fn blocks_are_appended_on_boundaries() {
    let mut out = vec![7u8; 5];
    let a = [1u8, 2, 3];
    let b = [4u8];
    let offsets = append_blocks(&mut out, &vec![&a[..], &b[..]]);
    assert_eq!(offsets, vec![2048, 4096]);
    assert_eq!(out.len(), 4097);
    assert_eq!(&out[..5], &[7; 5]);
    assert_eq!(&out[2048..2051], &[1, 2, 3]);
    assert_eq!(out[4096], 4);
    let mut aligned = vec![0u8; 2048];
    assert_eq!(append_blocks(&mut aligned, &vec![&a[..]]), vec![2048]);
    assert_eq!(aligned.len(), 2051);
}

#[test]
fn offsets_are_patched_pairwise() {
    let mut out = vec![0u8; 12];
    patch_offsets(&mut out, &vec![0, 8], &vec![0x0102_0304, 5, 6], false);
    assert_eq!(out, vec![1, 2, 3, 4, 0, 0, 0, 0, 0, 0, 0, 5]);
    let mut out = vec![0u8; 12];
    patch_offsets(&mut out, &vec![0, 4, 8], &vec![1], true);
    assert_eq!(out, vec![1, 0, 0, 0, 0, 0, 0, 0, 0, 0, 0, 0]);
    assert_eq!(low32_of(0x1_0000_0005usize), 5);
    assert_eq!(low32_of(7), 7);
}

#[test]
fn input_and_range_lookups() {
    let files = vec![
        SourceFile { path: "a".to_string(), data: vec![1, 2, 3] },
        SourceFile { path: "b".to_string(), data: vec![4] },
    ];
    assert_eq!(input(&files, &"b".to_string()), Ok(&[4u8][..]));
    assert_eq!(input(&files, &"c".to_string()), Err(MstError::Io));
    assert_eq!(range(&[1, 2, 3], 1, 2), Ok(&[2u8, 3][..]));
    assert_eq!(range(&[1, 2, 3], 2, 2), Err(MstError::Io));
    assert_eq!(range(&[1, 2, 3], 9, 0), Ok(&[][..]));
}
