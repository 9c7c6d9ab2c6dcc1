use fang::actions::mst::{
    combine_mst, convert_mst, info_mst, list_mst, rewrite, strip, unpack, unpack_mst, Command,
    CombineOpts, ConvertOpts, Extension, InfoOpts, ListOpts, Outcome, RewriteOpts, StripOpts,
    Target, UnpackOpts,
};
use fang::error::MstError;
use fang::mst::builder::{MstBuilder, SourceFile};
use fang::mst::entry::Entry;
use fang::mst::header::MstCompilers;
use fang::mst::{Mst, MstPlatformKnown, MstVersionKnown};

fn stamps(base: u32) -> MstCompilers {
    MstCompilers {
        tga_compiler_version: base,
        ape_compiler_version: base,
        mtx_compiler_version: base,
        csv_compiler_version: base,
        fnt_compiler_version: base,
        sma_compiler_version: base,
        gt_compiler_version: base,
        wvb_compiler_version: base,
        fpr_compiler_version: base,
        cam_compiler_version: base,
    }
}

fn archive(version: MstVersionKnown, platform: MstPlatformKnown, entries: &[(&str, Vec<u8>, u32)]) -> Vec<u8> {
    let mut builder = MstBuilder::new(version, platform, stamps(3));
    for (name, data, time) in entries {
        builder.add_entry_memory(name.to_string(), data.clone(), Some(*time));
    }
    builder.write_at(0, &Vec::new()).unwrap()
}

fn file(path: &str, data: Vec<u8>) -> SourceFile {
    SourceFile { path: path.to_string(), data }
}

#[test]
fn combine_keeps_both_entries_with_their_content() {
    let first = archive(MstVersionKnown::V170, MstPlatformKnown::Xbox, &[("a.dat", vec![0xaa; 3000], 100)]);
    let second = archive(MstVersionKnown::V180, MstPlatformKnown::Xbox, &[("b.dat", vec![0xbb; 50], 200)]);
    let files = vec![file("one.mst", first), file("two.mst", second)];
    let opts = CombineOpts {
        input1_path: "one.mst".to_string(),
        input2_path: "two.mst".to_string(),
        output_path: None,
    };
    let combined = combine_mst(&opts, &files).unwrap();
    let mst = Mst::read(&combined).unwrap();
    assert_eq!(mst.body.header.num_entries, 2);
    assert_eq!(mst.body.entries.version(), MstVersionKnown::V170);
    assert_eq!(mst.body.header.compilers.tga_compiler_version, 3);
    let entries = mst.collect_entries();
    assert_eq!(entries[0].filename(), "a.dat");
    assert_eq!(entries[0].offset(), 2048);
    assert_eq!(entries[0].size(), 3000);
    assert_eq!(entries[0].timestamp(), 100);
    assert_eq!(entries[1].filename(), "b.dat");
    assert_eq!(entries[1].offset(), 6144);
    assert_eq!(entries[1].size(), 50);
    assert_eq!(entries[1].timestamp(), 200);
    assert_eq!(&combined[2048..5048], &[0xaa; 3000][..]);
    assert_eq!(&combined[6144..6194], &[0xbb; 50][..]);
    assert_eq!(combined.len(), 6194);
    assert_eq!(mst.body.header.data_offset, 2048);
    assert_eq!(mst.body.header.bytes_in_file, 6194);
    match Command::Combine(opts).process(&files).unwrap() {
        Outcome::Write { target: Target::Beside { input, extension }, bytes } => {
            assert_eq!(input, "one.mst");
            assert_eq!(extension, Extension::Combined);
            assert_eq!(extension.text(), "combined.mst");
            assert_eq!(bytes, combined);
        }
        other => panic!("unexpected outcome {:?}", other),
    }
}

#[test]
fn combine_replaces_an_entry_of_the_same_name() {
    let first = archive(MstVersionKnown::V160, MstPlatformKnown::PC, &[("x", vec![1; 4], 1), ("y", vec![2; 4], 2)]);
    let second = archive(MstVersionKnown::V160, MstPlatformKnown::PC, &[("x", vec![3; 8], 3)]);
    let files = vec![file("1", first), file("2", second)];
    let opts = CombineOpts { input1_path: "1".to_string(), input2_path: "2".to_string(), output_path: Some("out".to_string()) };
    let combined = combine_mst(&opts, &files).unwrap();
    let entries = Mst::read(&combined).unwrap().collect_entries();
    assert_eq!(entries.len(), 2);
    assert_eq!(entries[0].filename(), "x");
    assert_eq!(entries[0].size(), 8);
    assert_eq!(entries[0].timestamp(), 3);
    assert_eq!(entries[1].filename(), "y");
    assert_eq!(&combined[2048..2056], &[3; 8]);
    match Command::Combine(opts).process(&files).unwrap() {
        Outcome::Write { target: Target::Path(path), .. } => assert_eq!(path, "out"),
        other => panic!("unexpected outcome {:?}", other),
    }
}

#[test]
fn convert_changes_the_revision_and_keeps_content() {
    let source = archive(
        MstVersionKnown::V180,
        MstPlatformKnown::Xbox,
        &[("a.tga", vec![7; 10], 10), ("b.ape", vec![8; 2049], 20)],
    );
    let files = vec![file("in.mst", source.clone())];
    for (minor, version, width) in [(6u8, MstVersionKnown::V160, 28), (7, MstVersionKnown::V170, 32), (8, MstVersionKnown::V180, 36)] {
        let opts = ConvertOpts { input_path: "in.mst".to_string(), output_path: None, minor: Some(minor) };
        let converted = convert_mst(&opts, &files).unwrap();
        let mst = Mst::read(&converted).unwrap();
        assert_eq!(mst.body.version().minor(), minor);
        assert_eq!(mst.body.entries.version(), version);
        let entries = mst.collect_entries();
        assert_eq!(entries.len(), 2);
        assert_eq!(entries[0].filename(), "a.tga");
        assert_eq!(entries[1].timestamp(), 20);
        assert_eq!(entries[1].offset(), 4096);
        assert_eq!(&converted[2048..2058], &[7; 10]);
        assert_eq!(&converted[4096..6145], &[8; 2049][..]);
        let mut head = Vec::new();
        assert_eq!(mst.write(&mut head).unwrap().len(), 2);
        assert_eq!(head.len(), 108 + 2 * width);
    }
    let same = ConvertOpts { input_path: "in.mst".to_string(), output_path: None, minor: None };
    assert_eq!(convert_mst(&same, &files).unwrap(), source);
    let unknown = ConvertOpts { input_path: "in.mst".to_string(), output_path: None, minor: Some(5) };
    assert_eq!(convert_mst(&unknown, &files).err(), Some(MstError::UnknownVersion));
    let missing = ConvertOpts { input_path: "no.mst".to_string(), output_path: None, minor: None };
    assert_eq!(convert_mst(&missing, &files).err(), Some(MstError::Io));
    match Command::Convert(same).process(&files).unwrap() {
        Outcome::Write { target: Target::Beside { input, extension }, bytes } => {
            assert_eq!(input, "in.mst");
            assert_eq!(extension.text(), "convert.mst");
            assert_eq!(bytes, source);
        }
        other => panic!("unexpected outcome {:?}", other),
    }
}

#[test]
fn info_tells_oldest_and_newest() {
    let source = archive(
        MstVersionKnown::V180PS2,
        MstPlatformKnown::PlayStation2,
        &[("a", vec![1], 50), ("b", vec![2], 20), ("c", vec![3], 70), ("d", vec![4], 60)],
    );
    let files = vec![file("in", source)];
    let info = info_mst(&InfoOpts { input_path: "in".to_string() }, &files).unwrap();
    assert_eq!(info.oldest, Some(20));
    assert_eq!(info.newest, Some(70));
    assert_eq!(info.version.word(), 0x2801_0800);
    assert_eq!(info.header.num_entries, 4);
    assert_eq!(info.header.compilers.fpr_compiler_version, 3);
    let empty = archive(MstVersionKnown::V160, MstPlatformKnown::PC, &[]);
    let files = vec![file("in", empty)];
    let info = info_mst(&InfoOpts { input_path: "in".to_string() }, &files).unwrap();
    assert_eq!(info.oldest, None);
    assert_eq!(info.newest, None);
    assert_eq!(info_mst(&InfoOpts { input_path: "x".to_string() }, &files).err(), Some(MstError::Io));
    assert!(matches!(
        Command::Info(InfoOpts { input_path: "in".to_string() }).process(&files),
        Ok(Outcome::Info(_))
    ));
}

#[test]
fn list_gives_entries_in_order() {
    let source = archive(MstVersionKnown::V170, MstPlatformKnown::GameCube, &[("z", vec![1; 5], 1), ("a", vec![2; 6], 2)]);
    let files = vec![file("in", source)];
    let listing = list_mst(&ListOpts { input_path: "in".to_string() }, &files).unwrap();
    assert_eq!(listing.num_entries, 2);
    assert_eq!(listing.num_support_entries, 0);
    assert_eq!(listing.entries.len(), 2);
    assert_eq!(listing.entries[0].filename(), "z");
    assert_eq!(listing.entries[0].size(), 5);
    assert_eq!(listing.entries[1].filename(), "a");
    assert_eq!(listing.entries[1].offset(), 4096);
    assert!(listing.support_entries.is_empty());
    assert!(matches!(
        Command::List(ListOpts { input_path: "in".to_string() }).process(&files),
        Ok(Outcome::List(_))
    ));
}

#[test]
fn unpack_takes_each_content_out() {
    let source = archive(MstVersionKnown::V180, MstPlatformKnown::PC, &[("one.bin", vec![1, 2, 3], 1), ("two.bin", Vec::new(), 2)]);
    let unpacked = unpack(&source).unwrap();
    assert_eq!(unpacked.len(), 2);
    assert_eq!(unpacked[0].name, "one.bin");
    assert_eq!(unpacked[0].data, vec![1, 2, 3]);
    assert_eq!(unpacked[1].name, "two.bin");
    assert!(unpacked[1].data.is_empty());
    assert_eq!(unpack(&source[..2050]).err(), Some(MstError::Io));
    let files = vec![file("in", source)];
    let opts = UnpackOpts { input_path: "in".to_string(), output_dir: "out".to_string() };
    assert_eq!(unpack_mst(&opts, &files).unwrap().len(), 2);
    match Command::Unpack(opts).process(&files).unwrap() {
        Outcome::Unpack { output_dir, entries } => {
            assert_eq!(output_dir, "out");
            assert_eq!(entries[0].data, vec![1, 2, 3]);
        }
        other => panic!("unexpected outcome {:?}", other),
    }
}

#[test]
fn strip_keeps_header_and_table() {
    let source = archive(MstVersionKnown::V160, MstPlatformKnown::Xbox, &[("one", vec![1; 30], 1)]);
    let stripped = strip(&source).unwrap();
    assert_eq!(stripped.len(), 108 + 28);
    assert_eq!(&stripped[..], &source[..136]);
    assert_eq!(strip(&source[..2050]).err(), Some(MstError::Io));
    let files = vec![file("in", source)];
    match Command::Strip(StripOpts { input_path: "in".to_string() }).process(&files).unwrap() {
        Outcome::Write { target: Target::Beside { input, extension }, bytes } => {
            assert_eq!(input, "in");
            assert_eq!(extension.text(), "stripped.mst");
            assert_eq!(bytes, stripped);
        }
        other => panic!("unexpected outcome {:?}", other),
    }
}

#[test]
fn rewrite_lays_content_out_in_entry_order() {
    // an archive whose content lies in another order than its entries
    let tidy = archive(MstVersionKnown::V180, MstPlatformKnown::Xbox, &[("a", vec![1; 10], 1), ("b", vec![2; 20], 2)]);
    let mut untidy = tidy.clone();
    untidy.resize(3 * 2048 + 10, 0);
    let (a, b) = (2048, 4096);
    untidy.copy_within(a..a + 10, 3 * 2048);
    untidy[a..a + 20].copy_from_slice(&[2; 20]);
    untidy[b..b + 20].copy_from_slice(&[0; 20]);
    // entry a now at 6144, entry b at 2048
    untidy[108 + 20..108 + 24].copy_from_slice(&6144u32.to_le_bytes());
    untidy[108 + 36 + 20..108 + 36 + 24].copy_from_slice(&2048u32.to_le_bytes());
    let rewritten = rewrite(&untidy).unwrap();
    let entries = Mst::read(&rewritten).unwrap().collect_entries();
    assert_eq!(entries[0].offset, 2048);
    assert_eq!(entries[1].offset, 4096);
    assert_eq!(&rewritten[2048..2058], &[1; 10]);
    assert_eq!(&rewritten[4096..4116], &[2; 20]);
    assert_eq!(rewritten, tidy);
    // the header is kept as it was read
    let files = vec![file("in", untidy)];
    match Command::Rewrite(RewriteOpts { input_path: "in".to_string() }).process(&files).unwrap() {
        Outcome::Write { target: Target::Beside { extension, .. }, bytes } => {
            assert_eq!(extension.text(), "rewrite.mst");
            assert_eq!(bytes, tidy);
        }
        other => panic!("unexpected outcome {:?}", other),
    }
}

#[test]
fn commands_name_their_inputs() {
    let combine = Command::Combine(CombineOpts {
        input1_path: "1".to_string(),
        input2_path: "2".to_string(),
        output_path: None,
    });
    assert_eq!(combine.inputs(), vec!["1".to_string(), "2".to_string()]);
    let info = Command::Info(InfoOpts { input_path: "i".to_string() });
    assert_eq!(info.inputs(), vec!["i".to_string()]);
    assert_eq!(info.process(&Vec::new()).err(), Some(MstError::Io));
}
