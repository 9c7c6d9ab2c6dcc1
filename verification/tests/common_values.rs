use fang::codec::{get_u16, get_u32, put_u16, put_u32, set_u32};
use fang::error::MstError;
use fang::mst::entry::{
    CanonicalEntry, Entry, EntryV160, EntryV170, EntryV180Variable, Filename, SupportEntry,
    SupportEntryVariable,
};
use fang::mst::{MstIdentifier, MstPlatformKnown, MstVersion, MstVersionKnown};
use fang::record::Record;
use fang::util::{null_terminated, string_to_vec, vec_to_null_terminated_str};

#[test]
fn u32_is_stored_in_both_byte_orders() {
    let mut out = Vec::new();
    put_u32(&mut out, 0x0102_0304, true);
    put_u32(&mut out, 0x0102_0304, false);
    assert_eq!(out, vec![4, 3, 2, 1, 1, 2, 3, 4]);
    assert_eq!(get_u32(&out, 0, true), 0x0102_0304);
    assert_eq!(get_u32(&out, 4, false), 0x0102_0304);
    assert_eq!(get_u32(&out, 2, true), 0x0201_0102);
}

#[test]
fn u16_is_stored_in_both_byte_orders() {
    let mut out = Vec::new();
    put_u16(&mut out, 0xabcd, true);
    put_u16(&mut out, 0xabcd, false);
    assert_eq!(out, vec![0xcd, 0xab, 0xab, 0xcd]);
    assert_eq!(get_u16(&out, 0, true), 0xabcd);
    assert_eq!(get_u16(&out, 2, false), 0xabcd);
}

#[test]
fn set_u32_overwrites_four_bytes_only() {
    let mut out = vec![9u8; 8];
    set_u32(&mut out, 2, 0x1122_3344, false);
    assert_eq!(out, vec![9, 9, 0x11, 0x22, 0x33, 0x44, 9, 9]);
}

#[test]
fn null_terminated_text_ends_at_first_nul() {
    assert_eq!(vec_to_null_terminated_str(b"abc\0def\0".to_vec()), "abc");
    assert_eq!(vec_to_null_terminated_str(b"abc".to_vec()), "abc");
    assert_eq!(vec_to_null_terminated_str(b"\0abc".to_vec()), "");
    assert_eq!(vec_to_null_terminated_str(Vec::new()), "");
    assert_eq!(null_terminated("x\0y"), "x");
}

#[test]
fn null_terminated_text_replaces_ill_formed_bytes() {
    assert_eq!(vec_to_null_terminated_str(vec![0x61, 0xff, 0x62, 0, 0x63]), "a\u{fffd}b");
    assert_eq!(vec_to_null_terminated_str(vec![0xc3, 0xa4, 0]), "\u{e4}");
}

#[test]
fn string_to_vec_cuts_and_pads() {
    assert_eq!(string_to_vec("abc", 5), vec![0x61, 0x62, 0x63, 0, 0]);
    assert_eq!(string_to_vec("abcdef", 4), vec![0x61, 0x62, 0x63, 0x64]);
    assert_eq!(string_to_vec("", 2), vec![0, 0]);
    assert_eq!(string_to_vec("abc", 0), Vec::<u8>::new());
    assert_eq!(string_to_vec("\u{e4}", 3), vec![0xc3, 0xa4, 0]);
}

#[test]
fn filename_from_string_leaves_a_terminator() {
    let name = Filename::<16>::from(&"0123456789abcdefXYZ".to_string());
    assert_eq!(&name.bytes(), b"0123456789abcde\0");
    assert_eq!(name.to_string(), "0123456789abcde");
    let short = Filename::<20>::from(&"a.dat".to_string());
    assert_eq!(&short.bytes()[..6], b"a.dat\0");
    assert!(short.bytes()[5..].iter().all(|b| *b == 0));
    assert_eq!(short.to_string(), "a.dat");
    assert!(!short.is_empty());
    assert!(Filename::<16>::from(&String::new()).is_empty());
    assert!(Filename::<0>::new([]).is_empty());
    assert_eq!(Filename::<1>::from(&"abc".to_string()).bytes(), [0]);
}

#[test]
fn filename_text_is_one_character_per_byte() {
    let name = Filename::<4>::new([0x41, 0xe4, 0xff, 0x42]);
    assert_eq!(name.to_string(), "A\u{e4}\u{ff}B");
    assert!(!name.is_empty());
    let cut = Filename::<4>::new([0x41, 0, 0x42, 0x43]);
    assert_eq!(cut.to_string(), "A");
}

#[test]
fn widening_keeps_bytes_and_narrowing_cuts_at_fifteen() {
    let narrow = Filename::<16>::new(*b"0123456789abcdef");
    let wide = Filename::<20>::from(narrow);
    assert_eq!(&wide.bytes(), b"0123456789abcdef\0\0\0\0");
    let back = Filename::<16>::from(wide);
    assert_eq!(&back.bytes(), b"0123456789abcde\0");
    let long = Filename::<20>::new(*b"0123456789abcdefghij");
    assert_eq!(&Filename::<16>::from(long).bytes(), b"0123456789abcde\0");
    assert_eq!(long.narrow().widen().to_string(), "0123456789abcde");
}

fn canonical_sample() -> CanonicalEntry {
    EntryV180Variable {
        filename: Filename::<20>::from(&"model.ape".to_string()),
        flags: 0x1234,
        offset: 0x0000_0800,
        size: 0x0001_0203,
        timestamp: 0x3b9a_ca00,
        crc: 0xdead_beef,
    }
}

#[test]
fn v180_entry_layout_is_exact() {
    let entry = EntryV180Variable::<16>::from(canonical_sample());
    let mut out = Vec::new();
    entry.put(&mut out, true);
    assert_eq!(out.len(), 36);
    assert_eq!(&out[..10], b"model.ape\0");
    assert_eq!(&out[16..18], &[0x34, 0x12]);
    assert_eq!(&out[18..20], &[0, 0]);
    assert_eq!(&out[20..24], &0x0000_0800u32.to_le_bytes());
    assert_eq!(&out[24..28], &0x0001_0203u32.to_le_bytes());
    assert_eq!(&out[28..32], &0x3b9a_ca00u32.to_le_bytes());
    assert_eq!(&out[32..36], &0xdead_beefu32.to_le_bytes());
    assert_eq!(EntryV180Variable::<16>::byte_len(), 36);
    assert_eq!(EntryV180Variable::<16>::offset_pos(), 20);
    let back = EntryV180Variable::<16>::get(&out, 0, true);
    assert_eq!(back.flags, 0x1234);
    assert_eq!(back.crc, 0xdead_beef);
    assert_eq!(back.filename(), "model.ape");
    let mut big = Vec::new();
    canonical_sample().put(&mut big, false);
    assert_eq!(big.len(), 40);
    assert_eq!(&big[20..22], &[0x12, 0x34]);
    assert_eq!(&big[24..28], &0x0000_0800u32.to_be_bytes());
    assert_eq!(EntryV180Variable::<20>::offset_pos(), 24);
}

#[test]
fn v170_and_v160_entries_drop_fields() {
    let v170 = EntryV170::from(canonical_sample());
    let mut out = Vec::new();
    v170.put(&mut out, true);
    assert_eq!(out.len(), 32);
    assert_eq!(&out[16..20], &0x0000_0800u32.to_le_bytes());
    assert_eq!(&out[28..32], &0xdead_beefu32.to_le_bytes());
    let again = CanonicalEntry::from(v170);
    assert_eq!(again.flags, 0);
    assert_eq!(again.crc, 0xdead_beef);
    assert_eq!(again.offset, 0x800);
    let v160 = EntryV160::from(canonical_sample());
    let mut out = Vec::new();
    v160.put(&mut out, false);
    assert_eq!(out.len(), 28);
    assert_eq!(&out[24..28], &0x3b9a_ca00u32.to_be_bytes());
    let again = CanonicalEntry::from(v160);
    assert_eq!(again.flags, 0);
    assert_eq!(again.crc, 0);
    assert_eq!(again.size, 0x0001_0203);
    assert_eq!(again.timestamp(), 0x3b9a_ca00);
    assert_eq!(EntryV170::offset_pos(), 16);
    assert_eq!(EntryV160::offset_pos(), 16);
    assert_eq!(v160.with_offset(5).offset(), 5);
}

#[test]
fn support_entry_layout_is_name_then_time() {
    let wide = SupportEntryVariable::<20> {
        filename: Filename::<20>::from(&"levels.csv".to_string()),
        timestamp: 0x0102_0304,
    };
    let mut out = Vec::new();
    wide.put(&mut out, false);
    assert_eq!(out.len(), 24);
    assert_eq!(&out[20..24], &[1, 2, 3, 4]);
    let narrow = SupportEntryVariable::<16>::from(wide);
    let mut out = Vec::new();
    narrow.put(&mut out, true);
    assert_eq!(out.len(), 20);
    assert_eq!(&out[16..20], &[4, 3, 2, 1]);
    assert_eq!(SupportEntry::filename(&narrow), "levels.csv");
    assert_eq!(SupportEntry::timestamp(&SupportEntryVariable::<20>::from(narrow)), 0x0102_0304);
}

#[test]
fn version_word_fields() {
    let version = MstVersion::from_known(MstVersionKnown::V180, MstPlatformKnown::Xbox);
    assert_eq!(version.word(), 0x0901_0800);
    assert_eq!((version.major(), version.minor(), version.patch()), (1, 8, 0));
    assert_eq!(version.xbox(), 1);
    assert_eq!(version.tools(), 1);
    assert_eq!((version.pc(), version.gc(), version.ps2()), (0, 0, 0));
    assert_eq!(version.into_bytes(), [0x00, 0x08, 0x01, 0x09]);
    assert_eq!(MstVersion::from_bytes([0x00, 0x08, 0x01, 0x09]).word(), 0x0901_0800);
    let gc = MstVersion::from_known(MstVersionKnown::V170, MstPlatformKnown::GameCube);
    assert_eq!(gc.word(), 0x1801_0700);
    let ps2 = MstVersion::from_known(MstVersionKnown::V180PS2, MstPlatformKnown::PlayStation2);
    assert_eq!(ps2.word(), 0x2801_0800);
    let pc = MstVersion::from_known(MstVersionKnown::V160, MstPlatformKnown::PC);
    assert_eq!(pc.word(), 0x0c01_0600);
}

#[test]
fn version_setters_change_one_field() {
    let mut version = MstVersion::parse(0xffff_ffff);
    version.set_minor(7);
    assert_eq!(version.word(), 0xffff_07ff);
    version.set_major(1);
    version.set_patch(0);
    assert_eq!(version.word(), 0xff01_0700);
    version.set_ps2(0);
    version.set_xbox(0);
    version.set_pc(0);
    version.set_gc(0);
    version.set_tools(0);
    assert_eq!(version.word(), 0xc201_0700);
    assert_eq!(MstVersion::new().word(), 0);
}

#[test]
fn known_versions_are_classified() {
    let known = |word: u32| MstVersionKnown::try_from(&MstVersion::parse(word));
    assert_eq!(known(0x2001_0800), Ok(MstVersionKnown::V180PS2));
    assert_eq!(known(0x0101_0800), Ok(MstVersionKnown::V180));
    assert_eq!(known(0x2001_0700), Ok(MstVersionKnown::V170));
    assert_eq!(known(0x0001_0600), Ok(MstVersionKnown::V160));
    assert_eq!(known(0x0001_0500), Err(MstError::UnknownVersion));
    assert_eq!(known(0x0002_0800), Err(MstError::UnknownVersion));
    assert_eq!(known(0x0001_0801), Err(MstError::UnknownVersion));
    assert_eq!(known(0), Err(MstError::UnknownVersion));
}

#[test]
fn first_platform_flag_decides() {
    let known = |word: u32| MstPlatformKnown::try_from(&MstVersion::parse(word));
    assert_eq!(known(1 << 24), Ok(MstPlatformKnown::Xbox));
    assert_eq!(known(1 << 26), Ok(MstPlatformKnown::PC));
    assert_eq!(known(1 << 28), Ok(MstPlatformKnown::GameCube));
    assert_eq!(known(1 << 29), Ok(MstPlatformKnown::PlayStation2));
    assert_eq!(known((1 << 29) | (1 << 26)), Ok(MstPlatformKnown::PC));
    assert_eq!(known((1 << 28) | (1 << 24)), Ok(MstPlatformKnown::Xbox));
    assert_eq!(known(1 << 27), Err(MstError::UnknownPlatform));
    assert_eq!(known(1 << 25), Err(MstError::UnknownPlatform));
    assert_eq!(known(0x00ff_ffff), Err(MstError::UnknownPlatform));
}

#[test]
fn identifier_byte_orders() {
    assert!(MstIdentifier::from_known(MstPlatformKnown::Xbox).is_little());
    assert!(MstIdentifier::from_known(MstPlatformKnown::PC).is_little());
    assert!(MstIdentifier::from_known(MstPlatformKnown::PlayStation2).is_little());
    assert!(!MstIdentifier::from_known(MstPlatformKnown::GameCube).is_little());
    assert!(MstIdentifier::Unknown(*b"ABCD").is_little());
    assert!(matches!(MstIdentifier::get(b"FANG", 0), MstIdentifier::FangLittleEndian));
    assert!(matches!(MstIdentifier::get(b"GNAF", 0), MstIdentifier::FangBigEndian));
    assert!(matches!(MstIdentifier::get(b"xFANx", 1), MstIdentifier::Unknown([0x46, 0x41, 0x4e, 0x78])));
    let mut out = Vec::new();
    MstIdentifier::FangBigEndian.put(&mut out);
    MstIdentifier::Unknown(*b"ABCD").put(&mut out);
    assert_eq!(out, b"GNAFABCD");
}

#[test]
fn name_field_is_wide_for_playstation_2_only() {
    assert_eq!(MstVersion::from_known(MstVersionKnown::V180PS2, MstPlatformKnown::PlayStation2).entry_name_length(), 20);
    assert_eq!(MstVersion::from_known(MstVersionKnown::V180, MstPlatformKnown::Xbox).entry_name_length(), 16);
    assert_eq!(MstVersion::from_known(MstVersionKnown::V170, MstPlatformKnown::PlayStation2).entry_name_length(), 16);
    assert_eq!(MstVersion::from_known(MstVersionKnown::V160, MstPlatformKnown::GameCube).entry_name_length(), 16);
    assert_eq!(MstVersion::parse(0x2001_0805).entry_name_length(), 20);
    assert_eq!(MstVersion::parse(0x2002_0800).entry_name_length(), 16);
}
