use fang::actions::ape;
use fang::actions::rdg;
use fang::actions::{FileTypeCommand, FileTypeOutcome};
use fang::ape::mesh::FMeshSkeleton;
use fang::bindings::error::FangFFIResult;
use fang::bindings::mst_builder::MstBuilder;
use fang::error::MstError;
use fang::mst::builder::SourceFile;
use fang::mst::header::MstCompilers;
use fang::mst::{Mst, MstPlatformKnown, MstVersionKnown};
use fang::rdg::snd_init::{SdirFile, SdirFileDsp, SndInitRdg};
use fang::record::Record;

fn snd_init(sdir_bytes: u32, sdir_offset: u32, dsps: usize) -> Vec<u8> {
    let mut bytes = Vec::new();
    for word in [0x10u32, 0x20, 0x30, 0x40, sdir_bytes, sdir_offset] {
        bytes.extend_from_slice(&word.to_be_bytes());
    }
    bytes.resize(sdir_offset as usize, 0xee);
    for i in 0..dsps {
        let dsp = SdirFileDsp {
            id: 0x0100 + i as u16,
            samp_offset: 0x0a0b_0c0d,
            base_note: 60,
            sample_rate: 32000,
            sample_count: 1000 + i as u32,
            loop_start: 1,
            loop_length: 2,
            info_offset: 3,
        };
        dsp.put(&mut bytes, false);
    }
    bytes
}

#[test]
fn sample_layout_has_unused_bytes() {
    let dsp = SdirFileDsp {
        id: 0x0102,
        samp_offset: 0x0304_0506,
        base_note: 7,
        sample_rate: 0x0809,
        sample_count: 0x0a0b_0c0d,
        loop_start: 0x0e0f_1011,
        loop_length: 0x1213_1415,
        info_offset: 0x1617_1819,
    };
    let mut bytes = Vec::new();
    dsp.put(&mut bytes, false);
    assert_eq!(
        bytes,
        vec![
            1, 2, 0, 0, 3, 4, 5, 6, 0, 0, 0, 0, 7, 0, 8, 9, 0x0a, 0x0b, 0x0c, 0x0d, 0x0e, 0x0f, 0x10,
            0x11, 0x12, 0x13, 0x14, 0x15, 0x16, 0x17, 0x18, 0x19
        ]
    );
    let back = SdirFileDsp::get(&bytes, 0, false);
    assert_eq!(back.id, 0x0102);
    assert_eq!(back.base_note, 7);
    assert_eq!(back.sample_rate, 0x0809);
    assert_eq!(back.info_offset, 0x1617_1819);
    assert_eq!(SdirFileDsp::byte_len(), 32);
}

#[test]
fn sound_file_is_read_big_endian() {
    // three samples: 3 * 72 + 4 bytes of directory
    let bytes = snd_init(220, 24, 3);
    let file = SndInitRdg::read(&bytes, false).unwrap();
    assert_eq!(file.proj_file_bytes, 0x10);
    assert_eq!(file.proj_file_offset, 0x20);
    assert_eq!(file.pool_file_bytes, 0x30);
    assert_eq!(file.pool_file_offset, 0x40);
    assert_eq!(file.sdir_file_bytes, 220);
    assert_eq!(file.sdir_file_offset, 24);
    assert_eq!(file.sdir_file.dsps.len(), 3);
    assert_eq!(file.sdir_file.dsps[2].id, 0x0102);
    assert_eq!(file.sdir_file.dsps[2].sample_count, 1002);
    assert_eq!(file.sdir_file.dsps[0].sample_rate, 32000);
    // the count is rounded down
    assert_eq!(SndInitRdg::read(&snd_init(291, 40, 3), false).unwrap().sdir_file.dsps.len(), 3);
    assert_eq!(SndInitRdg::read(&snd_init(292, 40, 4), false).unwrap().sdir_file.dsps.len(), 4);
}

#[test]
fn sound_file_errors() {
    assert_eq!(SndInitRdg::read(&snd_init(220, 24, 3)[..23], false).err(), Some(MstError::Io));
    assert_eq!(SndInitRdg::read(&snd_init(220, 24, 2), false).err(), Some(MstError::Io));
    assert_eq!(SndInitRdg::read(&snd_init(3, 24, 0), false).err(), Some(MstError::Io));
    assert_eq!(SndInitRdg::read(&snd_init(220, 24, 0)[..24], false).err(), Some(MstError::Io));
    // no sample: nothing is read at the offset
    let empty = SndInitRdg::read(&snd_init(75, 24, 0)[..24], false).unwrap();
    assert!(empty.sdir_file.dsps.is_empty());
    assert!(SdirFile::read(&[], 1000, 4, true).unwrap().dsps.is_empty());
    assert_eq!(SdirFile::read(&[0; 32], 1, 76, true).err(), Some(MstError::Io));
    assert_eq!(SdirFile::read(&[0; 32], 0, 76, true).unwrap().dsps.len(), 1);
}

#[test]
fn skeleton_is_three_bytes() {
    let bone = FMeshSkeleton::get(&[9, 1, 2, 3], 1, true);
    assert_eq!(bone.parent_bone_index, 1);
    assert_eq!(bone.child_bone_count, 2);
    assert_eq!(bone.child_array_start_index, 3);
    let mut out = Vec::new();
    bone.put(&mut out, false);
    assert_eq!(out, vec![1, 2, 3]);
    assert_eq!(FMeshSkeleton::byte_len(), 3);
}

#[test]
fn result_codes() {
    assert_eq!(FangFFIResult::Success.code(), 0);
    assert_eq!(FangFFIResult::NullPassed.code(), 1);
    assert_eq!(FangFFIResult::Panic.code(), 2);
    assert_eq!(FangFFIResult::OtherError.code(), 3);
    assert_eq!(FangFFIResult::from(MstError::Io), FangFFIResult::OtherError);
    assert_eq!(FangFFIResult::from(MstError::InvalidConversion), FangFFIResult::OtherError);
    assert_eq!(FangFFIResult::of(&Ok(())), FangFFIResult::Success);
    assert_eq!(FangFFIResult::of(&Err(MstError::LayoutMismatch)), FangFFIResult::OtherError);
}

#[test]
fn foreign_builder_takes_zero_for_no_time() {
    let compilers = MstCompilers {
        tga_compiler_version: 0,
        ape_compiler_version: 0,
        mtx_compiler_version: 0,
        csv_compiler_version: 0,
        fnt_compiler_version: 0,
        sma_compiler_version: 0,
        gt_compiler_version: 0,
        wvb_compiler_version: 0,
        fpr_compiler_version: 0,
        cam_compiler_version: 0,
    };
    let mut builder = MstBuilder::new(MstVersionKnown::V180, MstPlatformKnown::Xbox, compilers).unwrap();
    assert_eq!(builder.add_entry_memory("a".to_string(), vec![1], 0), Ok(()));
    assert_eq!(builder.add_entry_memory("b".to_string(), vec![2], 9), Ok(()));
    let bytes = builder.inner.write_at(1234, &Vec::new()).unwrap();
    let entries = Mst::read(&bytes).unwrap().collect_entries();
    assert_eq!(entries[0].timestamp, 1234);
    assert_eq!(entries[1].timestamp, 9);
}

#[test]
fn model_and_sound_commands() {
    let request = ape::Command::Info(ape::InfoOpts { input_path: "m.ape".to_string(), gamecube: true }).process();
    assert_eq!(request.input_path, "m.ape");
    assert!(!request.little);
    let request = ape::Command::Info(ape::InfoOpts { input_path: "m.ape".to_string(), gamecube: false }).process();
    assert!(request.little);
    assert_eq!(rdg::snd_init_name(), "snd_init.rdg");
    let files = vec![SourceFile { path: "sound".to_string(), data: snd_init(76, 24, 1) }];
    let file = rdg::Command::Info(rdg::InfoOpts { input_dir: "sound".to_string() }).process(&files).unwrap();
    assert_eq!(file.sdir_file.dsps.len(), 1);
    let missing = rdg::Command::Info(rdg::InfoOpts { input_dir: "none".to_string() }).process(&files);
    assert_eq!(missing.err(), Some(MstError::Io));
    let command = FileTypeCommand::Rdg { cmd: rdg::Command::Info(rdg::InfoOpts { input_dir: "sound".to_string() }) };
    assert!(matches!(command.process(&files), Ok(FileTypeOutcome::Rdg(_))));
    let command = FileTypeCommand::Ape {
        cmd: ape::Command::Info(ape::InfoOpts { input_path: "m".to_string(), gamecube: false }),
    };
    assert!(matches!(command.process(&files), Ok(FileTypeOutcome::Ape(_))));
    let command = FileTypeCommand::Mst {
        cmd: fang::actions::mst::Command::Info(fang::actions::mst::InfoOpts { input_path: "sound".to_string() }),
    };
    assert_eq!(command.process(&files).err(), Some(MstError::UnknownVersion));
}
